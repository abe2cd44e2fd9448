//! What holds of a filter over many cycles.

use crate::answers::{all_zero, answers_alike};
use crate::arith::{product, size};
use crate::binary32::{lemma_mag_order, Binary32};
use crate::blend::{is_share, one, zero};
use crate::config::{Config, MaskingConfig};
use crate::filter::{
    after_handing_out, caught_up, chunk_in, cycle_input, recorded, Record, drained, even_input, fed,
    fed_heard, feeding_loses_nothing, filter_ok, fresh_filter, handed, hop_done, lemma_chunk_in,
    lemma_hop_done, next_chunk, part, queue_stays_short, taken_in, FilterView, HopHeard,
    MAX_QUANTUM,
};
use crate::frame_laws::{
    frames_are_determined, leaves_all, masks_settled, tools_alike,
    voice_leaves_music_without_reduction,
};
use crate::level::Complex;
use crate::mask_laws::maskable;
use crate::mixer::mixed;
use crate::order::{
    same_number, same_numbers, lemma_one, lemma_product, lemma_quotient, lemma_ratio_exact,
    lemma_signed,
};
use crate::offline_laws::beginning_is_determined;
use crate::params::{masking_now, no_depth_no_reduction, RuntimeParams};
use crate::pipeline::{accums_after, Accums, FrameInput, MusicPart, Tools};
use crate::realtime::mixed_hop;
use crate::stream::{appended, silent};
use crate::voice_gate::TWENTY;
use vstd::arithmetic::power2::pow2;
use vstd::prelude::*;

verus! {

/// One cycle: what came in, and what was heard at its hop boundaries.
pub ghost struct Cycle {
    pub input: FrameInput,
    pub heard: Seq<HopHeard>,
}

/// One input followed by another.
pub open spec fn joined(a: FrameInput, b: FrameInput) -> FrameInput {
    FrameInput {
        music_l: a.music_l + b.music_l,
        music_r: a.music_r + b.music_r,
        voice_l: a.voice_l + b.voice_l,
        voice_r: a.voice_r + b.voice_r,
    }
}

/// No input.
pub open spec fn no_input() -> FrameInput {
    FrameInput {
        music_l: Seq::empty(),
        music_r: Seq::empty(),
        voice_l: Seq::empty(),
        voice_r: Seq::empty(),
    }
}

/// All that came in over cycles.
pub open spec fn all_input(cycles: Seq<Cycle>) -> FrameInput
    decreases cycles.len(),
{
    if cycles.len() == 0 {
        no_input()
    } else {
        joined(all_input(cycles.drop_last()), cycles.last().input)
    }
}

/// All that was heard over cycles.
pub open spec fn all_heard(cycles: Seq<Cycle>) -> Seq<HopHeard>
    decreases cycles.len(),
{
    if cycles.len() == 0 {
        Seq::empty()
    } else {
        all_heard(cycles.drop_last()) + cycles.last().heard
    }
}

/// A filter that has taken in the last one of some cycles, and not yet handed out.
pub open spec fn filled(f: FilterView, cycles: Seq<Cycle>) -> FilterView
    decreases cycles.len(), 0int,
{
    if cycles.len() == 0 {
        f
    } else {
        fed(
            after_cycles(f, cycles.drop_last()),
            cycles.last().input,
            0,
            cycles.last().heard,
        )
    }
}

/// A filter after cycles.
pub open spec fn after_cycles(f: FilterView, cycles: Seq<Cycle>) -> FilterView
    decreases cycles.len(), 1int,
{
    if cycles.len() == 0 {
        f
    } else {
        after_handing_out(filled(f, cycles), cycles.last().input.music_l.len())
    }
}

/// Whether each cycle brought four inputs of one length, no longer than a cycle can be, and the
/// functions gave what was heard.
pub open spec fn cycles_heard<
    L: Fn(Binary32) -> Binary32,
    P: Fn(Binary32) -> Binary32,
    N: Fn(Complex) -> Binary32,
    F: Fn(Vec<Binary32>) -> Vec<Complex>,
    I: Fn(Vec<Complex>) -> Vec<Binary32>,
>(
    tools: Tools<L, P, N, F, I>,
    f: FilterView,
    cycles: Seq<Cycle>,
) -> bool
    decreases cycles.len(),
{
    cycles.len() > 0 ==> {
        &&& cycles_heard(tools, f, cycles.drop_last())
        &&& even_input(cycles.last().input)
        &&& cycles.last().input.music_l.len() <= MAX_QUANTUM
        &&& fed_heard(
            tools,
            after_cycles(f, cycles.drop_last()),
            cycles.last().input,
            0,
            cycles.last().heard,
        )
    }
}

/// The mixed samples of the left channel that cycles handed out, without the silence.
pub open spec fn mixed_out_l(f: FilterView, cycles: Seq<Cycle>) -> Seq<
    Binary32,
>
    decreases cycles.len(),
{
    if cycles.len() == 0 {
        Seq::empty()
    } else {
        let g = filled(f, cycles);
        mixed_out_l(f, cycles.drop_last()) + g.queue_l.take(
            drained(g, cycles.last().input.music_l.len()) as int,
        )
    }
}

/// The mixed samples of the right channel that cycles handed out, without the silence.
pub open spec fn mixed_out_r(f: FilterView, cycles: Seq<Cycle>) -> Seq<
    Binary32,
>
    decreases cycles.len(),
{
    if cycles.len() == 0 {
        Seq::empty()
    } else {
        let g = filled(f, cycles);
        mixed_out_r(f, cycles.drop_last()) + g.queue_r.take(
            drained(g, cycles.last().input.music_l.len()) as int,
        )
    }
}

/// How many samples of silence cycles handed out.
pub open spec fn silence_out(f: FilterView, cycles: Seq<Cycle>) -> nat
    decreases cycles.len(),
{
    if cycles.len() == 0 {
        0
    } else {
        let n = cycles.last().input.music_l.len();
        silence_out(f, cycles.drop_last()) + (n - drained(
            filled(f, cycles),
            n,
        )) as nat
    }
}

/// What a cycle hands out is what waits, up to the length of the cycle, and then silence.
pub proof fn cycle_hands_out_mix_and_silence(f: FilterView, n: nat)
    requires
        f.queue_l.len() == f.queue_r.len(),
    ensures
        handed(f.queue_l, n) == f.queue_l.take(drained(f, n) as int) + silent(
            (n - drained(f, n)) as nat,
        ),
        handed(f.queue_r, n) == f.queue_r.take(drained(f, n) as int) + silent(
            (n - drained(f, n)) as nat,
        ),
        handed(f.queue_l, n).len() == n,
        handed(f.queue_r, n).len() == n,
{
    let d = drained(f, n);
    assert(handed(f.queue_l, n) =~= f.queue_l.take(d as int) + silent((n - d) as nat));
    assert(handed(f.queue_r, n) =~= f.queue_r.take(d as int) + silent((n - d) as nat));
}

/// The delay of a filter is the silence that it has handed out, however its input is cut into
/// cycles and whatever runtime values each hop finds: what waits and what is pending are
/// together as many samples as were silence so far, fewer than a hop. And the queue never holds
/// more than a frame and the longest cycle.
pub proof fn silence_is_the_delay<
    L: Fn(Binary32) -> Binary32,
    P: Fn(Binary32) -> Binary32,
    N: Fn(Complex) -> Binary32,
    F: Fn(Vec<Binary32>) -> Vec<Complex>,
    I: Fn(Vec<Complex>) -> Vec<Binary32>,
>(
    tools: Tools<L, P, N, F, I>,
    f: FilterView,
    cycles: Seq<Cycle>,
)
    requires
        filter_ok(f),
        f.queue_l.len() == 0,
        f.pending == 0,
        cycles_heard(tools, f, cycles),
    ensures
        filter_ok(after_cycles(f, cycles)),
        caught_up(after_cycles(f, cycles)),
        after_cycles(f, cycles).hop_size == f.hop_size,
        after_cycles(f, cycles).pipeline.window == f.pipeline.window,
        after_cycles(f, cycles).queue_l.len() + after_cycles(f, cycles).pending
            == silence_out(f, cycles),
        silence_out(f, cycles) <= f.hop_size - 1,
        filled(f, cycles).queue_l.len() < MAX_QUANTUM + f.pipeline.window.len(),
    decreases cycles.len(),
{
    if cycles.len() > 0 {
        let before = cycles.drop_last();
        let last = cycles.last();
        silence_is_the_delay(tools, f, before);
        let g = after_cycles(f, before);
        feeding_loses_nothing(g, last.input, 0, last.heard);
        queue_stays_short(g, last.input, last.heard);
    }
}

/// Two chunks that come in one after the other come in as one.
proof fn lemma_appended_twice(window: Seq<Binary32>, x: Seq<Binary32>, y: Seq<Binary32>)
    requires
        x.len() + y.len() <= window.len(),
    ensures
        appended(appended(window, x), y) == appended(window, x + y),
{
    assert(appended(appended(window, x), y) =~= appended(window, x + y));
}

/// What follows a first input is fed as if it stood alone.
proof fn lemma_second_part<
    L: Fn(Binary32) -> Binary32,
    P: Fn(Binary32) -> Binary32,
    N: Fn(Complex) -> Binary32,
    F: Fn(Vec<Binary32>) -> Vec<Complex>,
    I: Fn(Vec<Complex>) -> Vec<Binary32>,
>(
    tools: Tools<L, P, N, F, I>,
    f: FilterView,
    a: FrameInput,
    b: FrameInput,
    from: int,
    heard: Seq<HopHeard>,
)
    requires
        filter_ok(f),
        even_input(a),
        even_input(b),
        0 <= from <= b.music_l.len(),
    ensures
        fed(f, joined(a, b), a.music_l.len() + from, heard) == fed(
            f,
            b,
            from,
            heard,
        ),
        fed_heard(tools, f, joined(a, b), a.music_l.len() + from, heard) == fed_heard(
            tools,
            f,
            b,
            from,
            heard,
        ),
    decreases b.music_l.len() - from,
{
    let q = joined(a, b);
    let s = a.music_l.len();
    if from < b.music_l.len() {
        lemma_chunk_in(f, b, from);
        let chunk = next_chunk(f, b.music_l.len() - from);
        assert(part(q, s + from, s + from + chunk) == part(b, from, from + chunk)) by {
            assert(q.music_l.subrange(s + from, s + from + chunk) =~= b.music_l.subrange(
                from,
                from + chunk,
            ));
            assert(q.music_r.subrange(s + from, s + from + chunk) =~= b.music_r.subrange(
                from,
                from + chunk,
            ));
            assert(q.voice_l.subrange(s + from, s + from + chunk) =~= b.voice_l.subrange(
                from,
                from + chunk,
            ));
            assert(q.voice_r.subrange(s + from, s + from + chunk) =~= b.voice_r.subrange(
                from,
                from + chunk,
            ));
        }
        let g = chunk_in(f, b, from, chunk);
        assert(g == chunk_in(f, q, s + from, chunk));
        if g.pending == f.hop_size {
            lemma_hop_done(g, heard[0]);
            lemma_second_part(
                tools,
                hop_done(g, heard[0]),
                a,
                b,
                from + chunk,
                heard.skip(1),
            );
        } else {
            lemma_second_part(tools, g, a, b, from + chunk, heard);
        }
    }
}

/// A first input that ends before a hop boundary, and what follows it.
proof fn lemma_over_the_seam<
    L: Fn(Binary32) -> Binary32,
    P: Fn(Binary32) -> Binary32,
    N: Fn(Complex) -> Binary32,
    F: Fn(Vec<Binary32>) -> Vec<Complex>,
    I: Fn(Vec<Complex>) -> Vec<Binary32>,
>(
    tools: Tools<L, P, N, F, I>,
    f: FilterView,
    a: FrameInput,
    b: FrameInput,
    from: int,
    heard: Seq<HopHeard>,
)
    requires
        filter_ok(f),
        even_input(a),
        even_input(b),
        0 <= from < a.music_l.len(),
        f.pending + (a.music_l.len() - from) < f.hop_size,
    ensures
        fed(f, joined(a, b), from, heard) == fed(
            chunk_in(f, a, from, a.music_l.len() - from),
            b,
            0,
            heard,
        ),
        fed_heard(tools, f, joined(a, b), from, heard) == fed_heard(
            tools,
            chunk_in(f, a, from, a.music_l.len() - from),
            b,
            0,
            heard,
        ),
{
    let q = joined(a, b);
    let s = a.music_l.len();
    let c = s - from;
    let g = chunk_in(f, a, from, c);
    lemma_chunk_in(f, a, from);
    lemma_chunk_in(f, q, from);
    let whole = next_chunk(f, q.music_l.len() - from);
    let second = next_chunk(g, b.music_l.len() as int);
    let h = chunk_in(f, q, from, whole);
    if b.music_l.len() == 0 {
        assert(q.music_l =~= a.music_l);
        assert(q.music_r =~= a.music_r);
        assert(q.voice_l =~= a.voice_l);
        assert(q.voice_r =~= a.voice_r);
        assert(h == g);
        assert(fed(h, q, s as int, heard) == h);
        assert(fed(g, b, 0, heard) == g);
        assert(whole == c);
        assert(fed_heard(tools, h, q, s as int, heard) == (heard.len() == 0));
        assert(fed_heard(tools, g, b, 0, heard) == (heard.len() == 0));
    } else {
        assert(whole == c + second);
        let x = part(a, from, s as int);
        let y = part(b, 0, second);
        let z = part(q, from, from + whole);
        assert(z.music_l =~= x.music_l + y.music_l);
        assert(z.music_r =~= x.music_r + y.music_r);
        assert(z.voice_l =~= x.voice_l + y.voice_l);
        assert(z.voice_r =~= x.voice_r + y.voice_r);
        lemma_appended_twice(f.windows.music_l, x.music_l, y.music_l);
        lemma_appended_twice(f.windows.music_r, x.music_r, y.music_r);
        lemma_appended_twice(f.windows.voice_l, x.voice_l, y.voice_l);
        lemma_appended_twice(f.windows.voice_r, x.voice_r, y.voice_r);
        assert(taken_in(taken_in(f.windows, x), y) == taken_in(f.windows, z));
        assert(h == chunk_in(g, b, 0, second));
        if h.pending == f.hop_size {
            lemma_hop_done(h, heard[0]);
            lemma_second_part(
                tools,
                hop_done(h, heard[0]),
                a,
                b,
                second,
                heard.skip(1),
            );
        } else {
            lemma_second_part(tools, h, a, b, second, heard);
            assert(fed_heard(tools, g, b, 0, heard) == fed_heard(
                tools,
                h,
                b,
                second,
                heard,
            ));
        }
    }
}

/// Feeding one input and then another is feeding both at once.
proof fn lemma_fed_joined<
    L: Fn(Binary32) -> Binary32,
    P: Fn(Binary32) -> Binary32,
    N: Fn(Complex) -> Binary32,
    F: Fn(Vec<Binary32>) -> Vec<Complex>,
    I: Fn(Vec<Complex>) -> Vec<Binary32>,
>(
    tools: Tools<L, P, N, F, I>,
    f: FilterView,
    a: FrameInput,
    b: FrameInput,
    from: int,
    first: Seq<HopHeard>,
    second: Seq<HopHeard>,
)
    requires
        filter_ok(f),
        even_input(a),
        even_input(b),
        0 <= from <= a.music_l.len(),
        fed_heard(tools, f, a, from, first),
    ensures
        fed(f, joined(a, b), from, first + second) == fed(
            fed(f, a, from, first),
            b,
            0,
            second,
        ),
        fed_heard(tools, fed(f, a, from, first), b, 0, second) ==> fed_heard(
            tools,
            f,
            joined(a, b),
            from,
            first + second,
        ),
    decreases a.music_l.len() - from,
{
    let q = joined(a, b);
    let s = a.music_l.len();
    if from == s {
        assert(first + second =~= second);
        lemma_second_part(tools, f, a, b, 0, second);
    } else if f.hop_size - f.pending <= s - from {
        lemma_chunk_in(f, a, from);
        lemma_chunk_in(f, q, from);
        let chunk = f.hop_size - f.pending;
        assert(chunk == next_chunk(f, s - from));
        assert(chunk == next_chunk(f, q.music_l.len() - from));
        assert(part(q, from, from + chunk) == part(a, from, from + chunk)) by {
            assert(q.music_l.subrange(from, from + chunk) =~= a.music_l.subrange(
                from,
                from + chunk,
            ));
            assert(q.music_r.subrange(from, from + chunk) =~= a.music_r.subrange(
                from,
                from + chunk,
            ));
            assert(q.voice_l.subrange(from, from + chunk) =~= a.voice_l.subrange(
                from,
                from + chunk,
            ));
            assert(q.voice_r.subrange(from, from + chunk) =~= a.voice_r.subrange(
                from,
                from + chunk,
            ));
        }
        let g = chunk_in(f, a, from, chunk);
        assert(g == chunk_in(f, q, from, chunk));
        assert(g.pending == f.hop_size);
        assert((first + second)[0] == first[0]);
        assert((first + second).skip(1) =~= first.skip(1) + second);
        lemma_hop_done(g, first[0]);
        lemma_fed_joined(
            tools,
            hop_done(g, first[0]),
            a,
            b,
            from + chunk,
            first.skip(1),
            second,
        );
    } else {
        lemma_chunk_in(f, a, from);
        let c = s - from;
        let g = chunk_in(f, a, from, c);
        assert(fed(g, a, s as int, first) == g);
        assert(fed_heard(tools, g, a, s as int, first));
        assert(first + second =~= second);
        lemma_over_the_seam(tools, f, a, b, from, second);
    }
}

/// A filter with nothing in its queue.
spec fn bare(f: FilterView) -> FilterView {
    FilterView { queue_l: Seq::empty(), queue_r: Seq::empty(), ..f }
}

/// What waits stays in front of what feeding adds, and changes nothing of it.
proof fn lemma_queue_in_front<
    L: Fn(Binary32) -> Binary32,
    P: Fn(Binary32) -> Binary32,
    N: Fn(Complex) -> Binary32,
    F: Fn(Vec<Binary32>) -> Vec<Complex>,
    I: Fn(Vec<Complex>) -> Vec<Binary32>,
>(
    tools: Tools<L, P, N, F, I>,
    f: FilterView,
    q: FrameInput,
    from: int,
    heard: Seq<HopHeard>,
)
    requires
        filter_ok(f),
        even_input(q),
        0 <= from <= q.music_l.len(),
    ensures
        bare(fed(f, q, from, heard)) == bare(fed(bare(f), q, from, heard)),
        fed(f, q, from, heard).queue_l == f.queue_l + fed(
            bare(f),
            q,
            from,
            heard,
        ).queue_l,
        fed(f, q, from, heard).queue_r == f.queue_r + fed(
            bare(f),
            q,
            from,
            heard,
        ).queue_r,
        fed_heard(tools, f, q, from, heard) == fed_heard(
            tools,
            bare(f),
            q,
            from,
            heard,
        ),
    decreases q.music_l.len() - from,
{
    if from == q.music_l.len() {
        assert(f.queue_l + Seq::<Binary32>::empty() =~= f.queue_l);
        assert(f.queue_r + Seq::<Binary32>::empty() =~= f.queue_r);
    } else {
        lemma_chunk_in(f, q, from);
        let chunk = next_chunk(f, q.music_l.len() - from);
        let g = chunk_in(f, q, from, chunk);
        let b = chunk_in(bare(f), q, from, chunk);
        assert(b == bare(g));
        if g.pending == f.hop_size {
            let done = hop_done(g, heard[0]);
            let bare_done = hop_done(b, heard[0]);
            lemma_hop_done(g, heard[0]);
            lemma_hop_done(b, heard[0]);
            assert(bare(done) == bare(bare_done));
            let rest = heard.skip(1);
            lemma_queue_in_front(tools, done, q, from + chunk, rest);
            lemma_queue_in_front(tools, bare_done, q, from + chunk, rest);
            let more = fed(bare(done), q, from + chunk, rest);
            assert(done.queue_l + more.queue_l =~= f.queue_l + (bare_done.queue_l + more.queue_l));
            assert(done.queue_r + more.queue_r =~= f.queue_r + (bare_done.queue_r + more.queue_r));
        } else {
            lemma_queue_in_front(tools, g, q, from + chunk, heard);
        }
    }
}

/// Cycles come to what feeding their whole input at once comes to: what was handed out, but
/// for silence, followed by what waits is the mix of all that came in.
pub proof fn cycles_come_to_one<
    L: Fn(Binary32) -> Binary32,
    P: Fn(Binary32) -> Binary32,
    N: Fn(Complex) -> Binary32,
    F: Fn(Vec<Binary32>) -> Vec<Complex>,
    I: Fn(Vec<Complex>) -> Vec<Binary32>,
>(
    tools: Tools<L, P, N, F, I>,
    f: FilterView,
    cycles: Seq<Cycle>,
)
    requires
        filter_ok(f),
        f.queue_l.len() == 0,
        cycles_heard(tools, f, cycles),
    ensures
        ({
            let after = after_cycles(f, cycles);
            let whole = fed(f, all_input(cycles), 0, all_heard(cycles));
            &&& whole == FilterView {
                queue_l: mixed_out_l(f, cycles) + after.queue_l,
                queue_r: mixed_out_r(f, cycles) + after.queue_r,
                ..after
            }
        }),
        filter_ok(after_cycles(f, cycles)),
        even_input(all_input(cycles)),
        fed_heard(tools, f, all_input(cycles), 0, all_heard(cycles)),
    decreases cycles.len(),
{
    let after = after_cycles(f, cycles);
    if cycles.len() == 0 {
        assert(mixed_out_l(f, cycles) + after.queue_l =~= f.queue_l);
        assert(mixed_out_r(f, cycles) + after.queue_r =~= f.queue_r);
    } else {
        let before = cycles.drop_last();
        let last = cycles.last();
        cycles_come_to_one(tools, f, before);
        let g = after_cycles(f, before);
        let w = fed(f, all_input(before), 0, all_heard(before));
        feeding_loses_nothing(f, all_input(before), 0, all_heard(before));
        assert(bare(w) == bare(g));
        lemma_queue_in_front(tools, g, last.input, 0, last.heard);
        lemma_queue_in_front(tools, w, last.input, 0, last.heard);
        lemma_fed_joined(
            tools,
            f,
            all_input(before),
            last.input,
            0,
            all_heard(before),
            last.heard,
        );
        feeding_loses_nothing(g, last.input, 0, last.heard);
        let whole = fed(w, last.input, 0, last.heard);
        let h = filled(f, cycles);
        assert(h == fed(g, last.input, 0, last.heard));
        assert(bare(whole) == bare(h));
        let d = drained(h, last.input.music_l.len()) as int;
        let more = fed(bare(g), last.input, 0, last.heard);
        let out_l = mixed_out_l(f, before);
        let out_r = mixed_out_r(f, before);
        assert(whole.queue_l =~= out_l + (g.queue_l + more.queue_l));
        assert(whole.queue_r =~= out_r + (g.queue_r + more.queue_r));
        assert(out_l + h.queue_l =~= (out_l + h.queue_l.take(d)) + h.queue_l.skip(d));
        assert(out_r + h.queue_r =~= (out_r + h.queue_r.take(d)) + h.queue_r.skip(d));
    }
}

/// Whether the runtime values stay the same.
pub open spec fn with_params(heard: Seq<HopHeard>, params: RuntimeParams) -> bool {
    forall|i: int| 0 <= i < heard.len() ==> (#[trigger] heard[i]).params == params
}

/// Later on, values that stay the same are still the same.
proof fn lemma_with_params(heard: Seq<HopHeard>, params: RuntimeParams)
    requires
        with_params(heard, params),
        heard.len() > 0,
    ensures
        heard[0].params == params,
        with_params(heard.skip(1), params),
{
    assert forall|i: int| 0 <= i < heard.len() - 1 implies (#[trigger] heard.skip(1)[i]).params
        == params by {
        assert(heard[i + 1].params == params);
    }
}

/// Feeding comes to one result, where the functions answer alike each time and the runtime
/// values stay the same.
pub proof fn feeding_is_determined<
    L: Fn(Binary32) -> Binary32,
    P: Fn(Binary32) -> Binary32,
    N: Fn(Complex) -> Binary32,
    F: Fn(Vec<Binary32>) -> Vec<Complex>,
    I: Fn(Vec<Complex>) -> Vec<Binary32>,
>(
    tools: Tools<L, P, N, F, I>,
    f: FilterView,
    q: FrameInput,
    from: int,
    heard: Seq<HopHeard>,
    other: Seq<HopHeard>,
    params: RuntimeParams,
)
    requires
        tools_alike(tools),
        fed_heard(tools, f, q, from, heard),
        fed_heard(tools, f, q, from, other),
        with_params(heard, params),
        with_params(other, params),
    ensures
        fed(f, q, from, heard) == fed(f, q, from, other),
    decreases q.music_l.len() - from,
{
    let left = q.music_l.len() - from;
    let chunk = next_chunk(f, left);
    if left > 0 && chunk > 0 {
        let g = chunk_in(f, q, from, chunk);
        if g.pending == f.hop_size {
            lemma_with_params(heard, params);
            lemma_with_params(other, params);
            frames_are_determined(
                tools,
                g.pipeline,
                g.windows,
                masking_now(g.masking, params),
                params.compression_mix,
                MusicPart::Left,
                heard[0].frame,
                other[0].frame,
                g.accums,
                0,
            );
            let done = hop_done(g, heard[0]);
            assert(done == hop_done(g, other[0]));
            feeding_is_determined(
                tools,
                done,
                q,
                from + chunk,
                heard.skip(1),
                other.skip(1),
                params,
            );
        } else {
            feeding_is_determined(tools, g, q, from + chunk, heard, other, params);
        }
    }
}

/// How the input is cut into cycles does not matter, where the functions answer alike each
/// time and the runtime values stay the same: the same input in other cycles is mixed to the
/// same samples. What was handed out without the silence, followed by what waits, is the same,
/// so that what one handed out is the beginning of what the other handed out or the other way
/// round.
pub proof fn cuts_do_not_matter<
    L: Fn(Binary32) -> Binary32,
    P: Fn(Binary32) -> Binary32,
    N: Fn(Complex) -> Binary32,
    F: Fn(Vec<Binary32>) -> Vec<Complex>,
    I: Fn(Vec<Complex>) -> Vec<Binary32>,
>(
    tools: Tools<L, P, N, F, I>,
    f: FilterView,
    cycles: Seq<Cycle>,
    other: Seq<Cycle>,
    params: RuntimeParams,
)
    requires
        tools_alike(tools),
        filter_ok(f),
        f.queue_l.len() == 0,
        cycles_heard(tools, f, cycles),
        cycles_heard(tools, f, other),
        all_input(cycles) == all_input(other),
        with_params(all_heard(cycles), params),
        with_params(all_heard(other), params),
    ensures
        mixed_out_l(f, cycles) + after_cycles(f, cycles).queue_l == mixed_out_l(
            f,
            other,
        ) + after_cycles(f, other).queue_l,
        mixed_out_r(f, cycles) + after_cycles(f, cycles).queue_r == mixed_out_r(
            f,
            other,
        ) + after_cycles(f, other).queue_r,
        mixed_out_l(f, cycles).is_prefix_of(mixed_out_l(f, other)) || mixed_out_l(
            f,
            other,
        ).is_prefix_of(mixed_out_l(f, cycles)),
        mixed_out_r(f, cycles).is_prefix_of(mixed_out_r(f, other)) || mixed_out_r(
            f,
            other,
        ).is_prefix_of(mixed_out_r(f, cycles)),
{
    cycles_come_to_one(tools, f, cycles);
    cycles_come_to_one(tools, f, other);
    feeding_is_determined(
        tools,
        f,
        all_input(cycles),
        0,
        all_heard(cycles),
        all_heard(other),
        params,
    );
    lemma_prefix(
        mixed_out_l(f, cycles),
        after_cycles(f, cycles).queue_l,
        mixed_out_l(f, other),
        after_cycles(f, other).queue_l,
    );
    lemma_prefix(
        mixed_out_r(f, cycles),
        after_cycles(f, cycles).queue_r,
        mixed_out_r(f, other),
        after_cycles(f, other).queue_r,
    );
}

/// Of two beginnings of one sequence, one is the beginning of the other.
proof fn lemma_prefix(a: Seq<Binary32>, x: Seq<Binary32>, b: Seq<Binary32>, y: Seq<Binary32>)
    requires
        a + x == b + y,
    ensures
        a.is_prefix_of(b) || b.is_prefix_of(a),
{
    let s = a + x;
    assert(s.subrange(0, a.len() as int) =~= a);
    assert(s.subrange(0, b.len() as int) =~= b);
    if a.len() <= b.len() {
        assert(b.subrange(0, a.len() as int) =~= a);
    } else {
        assert(a.subrange(0, b.len() as int) =~= b);
    }
}

/// Whether two filters have heard the same music and made the same of it, whatever the voices
/// were.
pub open spec fn same_music(f: FilterView, g: FilterView) -> bool {
    &&& filter_ok(f)
    &&& filter_ok(g)
    &&& masks_settled(f.pipeline)
    &&& masks_settled(g.pipeline)
    &&& f.pipeline.window == g.pipeline.window
    &&& f.windows.music_l == g.windows.music_l
    &&& f.windows.music_r == g.windows.music_r
    &&& f.accums.music_l == g.accums.music_l
    &&& f.accums.music_r == g.accums.music_r
    &&& f.pending == g.pending
    &&& f.hop_size == g.hop_size
    &&& f.masking == g.masking
    &&& f.music_gain == g.music_gain
    &&& same_numbers(f.queue_l, g.queue_l)
    &&& same_numbers(f.queue_r, g.queue_r)
}

/// Whether the first hop of the sums of the voices is finite.
pub open spec fn finite_hop(sums: Accums, hop_size: nat) -> bool {
    forall|i: int|
        0 <= i < hop_size ==> (#[trigger] sums.voice_l[i]).finite() && sums.voice_r[i].finite()
}

/// Whether the sums of the voices are finite at each hop boundary.
pub open spec fn voices_finite(
    f: FilterView,
    q: FrameInput,
    from: int,
    heard: Seq<HopHeard>,
) -> bool
    decreases q.music_l.len() - from,
{
    let left = q.music_l.len() - from;
    let chunk = next_chunk(f, left);
    left > 0 && chunk > 0 ==> {
        let g = chunk_in(f, q, from, chunk);
        if g.pending == f.hop_size {
            &&& finite_hop(accums_after(g.accums, g.pipeline.window, heard[0].frame, 0), g.hop_size)
            &&& voices_finite(
                hop_done(g, heard[0]),
                q,
                from + chunk,
                heard.skip(1),
            )
        } else {
            voices_finite(g, q, from + chunk, heard)
        }
    }
}

/// A voice without gain leaves the music alone.
proof fn lemma_music_alone(
    music: Binary32,
    voice: Binary32,
    other: Binary32,
    music_gain: Binary32,
    voice_gain: Binary32,
)
    requires
        voice.finite(),
        other.finite(),
        voice_gain.code() == 0,
    ensures
        ({
            let a = mixed(music, voice, music_gain, voice_gain);
            let b = mixed(music, other, music_gain, voice_gain);
            same_number(a, b)
        }),
{
    lemma_one();
    let m = product(music, music_gain);
    let v = product(voice, voice_gain);
    let w = product(other, voice_gain);
    lemma_product(voice, voice_gain);
    lemma_product(other, voice_gain);
    assert(size(voice) * 0 == 0) by (nonlinear_arith);
    assert(size(other) * 0 == 0) by (nonlinear_arith);
    lemma_ratio_exact(0, pow2(149));
    assert(0 * pow2(149) == 0);
    assert(v.code() == 0 && w.code() == 0);
    lemma_signed(m.negative() && v.negative(), 0);
    lemma_signed(m.negative() && w.negative(), 0);
}

/// Two filters that have heard the same music have mixed the same, with voices that have no
/// gain.
proof fn lemma_same_hop(
    music: Seq<Binary32>,
    voice: Seq<Binary32>,
    other: Seq<Binary32>,
    music_gain: Binary32,
    voice_gain: Binary32,
    hop_size: nat,
    queue: Seq<Binary32>,
    other_queue: Seq<Binary32>,
)
    requires
        voice_gain.code() == 0,
        forall|i: int|
            0 <= i < hop_size ==> (#[trigger] voice[i]).finite() && other[i].finite(),
        same_numbers(queue, other_queue),
    ensures
        same_numbers(
            queue + mixed_hop(music, voice, music_gain, voice_gain, hop_size),
            other_queue + mixed_hop(music, other, music_gain, voice_gain, hop_size),
        ),
{
    let x = mixed_hop(music, voice, music_gain, voice_gain, hop_size);
    let y = mixed_hop(music, other, music_gain, voice_gain, hop_size);
    let a = queue + x;
    let b = other_queue + y;
    assert forall|i: int| 0 <= i < a.len() implies same_number(#[trigger] a[i], b[i]) by {
        let k = i - queue.len();
        if k < 0 {
            assert(same_number(queue[i], other_queue[i]));
        } else {
            assert(voice[k].finite() && other[k].finite());
            lemma_music_alone(music[k], voice[k], other[k], music_gain, voice_gain);
        }
    }
}

/// Where ten to the power of zero is one, a masking depth of zero reduces nothing.
proof fn lemma_leaves_all<P: Fn(Binary32) -> Binary32>(
    pow10: P,
    config: MaskingConfig,
    params: RuntimeParams,
)
    requires
        params.masking_depth == zero(),
        forall|x: Binary32, y: Binary32|
            x.code() == 0 && #[trigger] call_ensures(pow10, (x,), y) ==> y == one(),
    ensures
        leaves_all(pow10, masking_now(config, params)),
{
    lemma_one();
    no_depth_no_reduction(config, params);
    let x = masking_now(config, params).max_reduction_db;
    let t = Binary32 { bits: TWENTY };
    lemma_mag_order(0, x.code());
    lemma_mag_order(0, TWENTY as nat);
    lemma_quotient(x, t);
    lemma_ratio_exact(0, size(t));
    assert(0 * pow2(149) == 0);
    assert(0 * size(t) == 0);
}

/// Feeding the same music keeps what two filters made of it the same.
proof fn lemma_same_music_fed<
    L: Fn(Binary32) -> Binary32,
    P: Fn(Binary32) -> Binary32,
    N: Fn(Complex) -> Binary32,
    F: Fn(Vec<Binary32>) -> Vec<Complex>,
    I: Fn(Vec<Complex>) -> Vec<Binary32>,
>(
    tools: Tools<L, P, N, F, I>,
    f: FilterView,
    q: FrameInput,
    heard: Seq<HopHeard>,
    g: FilterView,
    other_q: FrameInput,
    other_heard: Seq<HopHeard>,
    from: int,
    params: RuntimeParams,
)
    requires
        tools_alike(tools),
        same_music(f, g),
        even_input(q),
        even_input(other_q),
        q.music_l == other_q.music_l,
        q.music_r == other_q.music_r,
        0 <= from <= q.music_l.len(),
        fed_heard(tools, f, q, from, heard),
        fed_heard(tools, g, other_q, from, other_heard),
        voices_finite(f, q, from, heard),
        voices_finite(g, other_q, from, other_heard),
        with_params(heard, params),
        with_params(other_heard, params),
        params.voice_gain.code() == 0,
        maskable(masking_now(f.masking, params)),
        leaves_all(tools.pow10, masking_now(f.masking, params)),
    ensures
        same_music(
            fed(f, q, from, heard),
            fed(g, other_q, from, other_heard),
        ),
    decreases q.music_l.len() - from,
{
    if from < q.music_l.len() {
        lemma_chunk_in(f, q, from);
        lemma_chunk_in(g, other_q, from);
        let chunk = next_chunk(f, q.music_l.len() - from);
        assert(chunk == next_chunk(g, other_q.music_l.len() - from));
        let a = chunk_in(f, q, from, chunk);
        let b = chunk_in(g, other_q, from, chunk);
        if a.pending == f.hop_size {
            lemma_with_params(heard, params);
            lemma_with_params(other_heard, params);
            let h = heard[0].frame;
            let k = other_heard[0].frame;
            let masking = masking_now(f.masking, params);
            voice_leaves_music_without_reduction(
                tools,
                a.pipeline,
                a.windows,
                h,
                a.accums,
                b.pipeline,
                b.windows,
                k,
                b.accums,
                masking,
                params.compression_mix,
                MusicPart::Left,
                0,
            );
            lemma_hop_done(a, heard[0]);
            lemma_hop_done(b, other_heard[0]);
            let x = accums_after(a.accums, a.pipeline.window, h, 0);
            let y = accums_after(b.accums, b.pipeline.window, k, 0);
            assert(finite_hop(x, a.hop_size));
            assert(finite_hop(y, b.hop_size));
            assert forall|i: int| 0 <= i < a.hop_size implies (#[trigger] x.voice_l[i]).finite()
                && y.voice_l[i].finite() by {
                assert(y.voice_l[i].finite());
            }
            assert forall|i: int| 0 <= i < a.hop_size implies (#[trigger] x.voice_r[i]).finite()
                && y.voice_r[i].finite() by {
                assert(x.voice_l[i].finite());
                assert(y.voice_l[i].finite());
            }
            lemma_same_hop(
                x.music_l,
                x.voice_l,
                y.voice_l,
                a.music_gain,
                params.voice_gain,
                a.hop_size,
                a.queue_l,
                b.queue_l,
            );
            lemma_same_hop(
                x.music_r,
                x.voice_r,
                y.voice_r,
                a.music_gain,
                params.voice_gain,
                a.hop_size,
                a.queue_r,
                b.queue_r,
            );
            let c = hop_done(a, heard[0]);
            let d = hop_done(b, other_heard[0]);
            assert(same_music(c, d));
            lemma_same_music_fed(
                tools,
                c,
                q,
                heard.skip(1),
                d,
                other_q,
                other_heard.skip(1),
                from + chunk,
                params,
            );
        } else {
            assert(same_music(a, b));
            lemma_same_music_fed(
                tools,
                a,
                q,
                heard,
                b,
                other_q,
                other_heard,
                from + chunk,
                params,
            );
        }
    }
}

/// A new filter has the same music as itself, where the weights of the envelope lie between
/// zero and one.
pub proof fn beginning_has_same_music<
    L: Fn(Binary32) -> Binary32,
    E: Fn(Binary32) -> Binary32,
    C: Fn(Binary32) -> Binary32,
    P: Fn(Binary32) -> Binary32,
>(f: FilterView, config: Config, log10: L, exp: E, cos: C, pow10: P)
    requires
        filter_ok(f),
        fresh_filter(f, config, log10, exp, cos, pow10),
        is_share(f.pipeline.gate.alpha_attack),
        is_share(f.pipeline.gate.alpha_release),
    ensures
        same_music(f, f),
{
    lemma_one();
}

/// New filters for the same settings are the same, where the functions answer alike each time.
pub proof fn new_filters_are_the_same<
    L: Fn(Binary32) -> Binary32,
    E: Fn(Binary32) -> Binary32,
    C: Fn(Binary32) -> Binary32,
    P: Fn(Binary32) -> Binary32,
>(f: FilterView, g: FilterView, config: Config, log10: L, exp: E, cos: C, pow10: P)
    requires
        answers_alike(log10),
        answers_alike(exp),
        answers_alike(cos),
        answers_alike(pow10),
        fresh_filter(f, config, log10, exp, cos, pow10),
        fresh_filter(g, config, log10, exp, cos, pow10),
    ensures
        f == g,
{
    beginning_is_determined(f.pipeline, g.pipeline, config, log10, exp, cos);
}

/// At a masking depth of zero the voice is without effect on the music: two filters that get
/// the same music and other voices, with no gain for the voices, hand out the same numbers
/// cycle after cycle. The functions answer alike each time, and ten to the power of zero is one.
pub proof fn voice_is_without_effect_at_no_depth<
    L: Fn(Binary32) -> Binary32,
    P: Fn(Binary32) -> Binary32,
    N: Fn(Complex) -> Binary32,
    F: Fn(Vec<Binary32>) -> Vec<Complex>,
    I: Fn(Vec<Complex>) -> Vec<Binary32>,
>(
    tools: Tools<L, P, N, F, I>,
    f: FilterView,
    q: FrameInput,
    heard: Seq<HopHeard>,
    g: FilterView,
    other_q: FrameInput,
    other_heard: Seq<HopHeard>,
    params: RuntimeParams,
)
    requires
        tools_alike(tools),
        forall|x: Binary32, y: Binary32|
            x.code() == 0 && #[trigger] call_ensures(tools.pow10, (x,), y) ==> y == one(),
        same_music(f, g),
        even_input(q),
        even_input(other_q),
        q.music_l == other_q.music_l,
        q.music_r == other_q.music_r,
        fed_heard(tools, f, q, 0, heard),
        fed_heard(tools, g, other_q, 0, other_heard),
        voices_finite(f, q, 0, heard),
        voices_finite(g, other_q, 0, other_heard),
        with_params(heard, params),
        with_params(other_heard, params),
        params.masking_depth == zero(),
        params.voice_gain.code() == 0,
        params.wideband.nan() || is_share(params.wideband),
    ensures
        ({
            let n = q.music_l.len();
            let a = fed(f, q, 0, heard);
            let b = fed(g, other_q, 0, other_heard);
            &&& same_numbers(handed(a.queue_l, n), handed(b.queue_l, n))
            &&& same_numbers(handed(a.queue_r, n), handed(b.queue_r, n))
            &&& same_music(after_handing_out(a, n), after_handing_out(b, n))
        }),
{
    lemma_one();
    lemma_leaves_all(tools.pow10, f.masking, params);
    assert(maskable(masking_now(f.masking, params)));
    lemma_same_music_fed(tools, f, q, heard, g, other_q, other_heard, 0, params);
    let n = q.music_l.len();
    let a = fed(f, q, 0, heard);
    let b = fed(g, other_q, 0, other_heard);
    lemma_same_handed(a.queue_l, b.queue_l, n);
    lemma_same_handed(a.queue_r, b.queue_r, n);
}

/// Of the same numbers, the same numbers are handed out and left.
proof fn lemma_same_handed(a: Seq<Binary32>, b: Seq<Binary32>, n: nat)
    requires
        same_numbers(a, b),
    ensures
        same_numbers(handed(a, n), handed(b, n)),
        forall|d: int| 0 <= d <= a.len() ==> same_numbers(#[trigger] a.skip(d), b.skip(d)),
{
    let x = handed(a, n);
    let y = handed(b, n);
    assert forall|i: int| 0 <= i < x.len() implies same_number(#[trigger] x[i], y[i]) by {
        if i < a.len() {
            assert(same_number(a[i], b[i]));
        }
    }
    assert forall|d: int| 0 <= d <= a.len() implies same_numbers(
        #[trigger] a.skip(d),
        b.skip(d),
    ) by {
        let s = a.skip(d);
        let t = b.skip(d);
        assert forall|i: int| 0 <= i < s.len() implies same_number(#[trigger] s[i], t[i]) by {
            assert(same_number(a[d + i], b[d + i]));
        }
    }
}

/// Whether the last samples of a window are those of a chunk, and the ones before it moved up.
pub open spec fn window_moved(
    before: Seq<Binary32>,
    after: Seq<Binary32>,
    samples: Seq<Binary32>,
    from: int,
    chunk: int,
) -> bool {
    let kept = before.len() - chunk;
    &&& after.len() == before.len()
    &&& forall|i: int| 0 <= i < chunk ==> #[trigger] after[kept + i] == samples[from + i]
    &&& forall|i: int| 0 <= i < kept ==> #[trigger] after[i] == before[i + chunk]
}

/// A chunk goes into the windows channel by channel: music to music and voice to voice, left to
/// left and right to right, the newest samples last. Nothing else changes but the count of what
/// came in.
pub proof fn chunks_go_to_their_own_windows(
    f: FilterView,
    q: FrameInput,
    from: int,
    chunk: int,
)
    requires
        filter_ok(f),
        even_input(q),
        0 <= from,
        0 <= chunk <= f.pipeline.window.len(),
        from + chunk <= q.music_l.len(),
    ensures
        ({
            let g = chunk_in(f, q, from, chunk);
            &&& window_moved(f.windows.music_l, g.windows.music_l, q.music_l, from, chunk)
            &&& window_moved(f.windows.music_r, g.windows.music_r, q.music_r, from, chunk)
            &&& window_moved(f.windows.voice_l, g.windows.voice_l, q.voice_l, from, chunk)
            &&& window_moved(f.windows.voice_r, g.windows.voice_r, q.voice_r, from, chunk)
            &&& g.pending == f.pending + chunk
            &&& g == (FilterView { windows: g.windows, pending: g.pending, ..f })
        }),
{
}

/// A frame is heard at each hop boundary and nowhere else: after feeding, what is pending is
/// what is left over of whole hops, and as many hops were heard as came to their end.
pub proof fn hops_are_heard_at_their_boundaries<
    L: Fn(Binary32) -> Binary32,
    P: Fn(Binary32) -> Binary32,
    N: Fn(Complex) -> Binary32,
    F: Fn(Vec<Binary32>) -> Vec<Complex>,
    I: Fn(Vec<Complex>) -> Vec<Binary32>,
>(
    tools: Tools<L, P, N, F, I>,
    f: FilterView,
    q: FrameInput,
    from: int,
    heard: Seq<HopHeard>,
)
    requires
        filter_ok(f),
        even_input(q),
        0 <= from <= q.music_l.len(),
        fed_heard(tools, f, q, from, heard),
    ensures
        heard.len() * f.hop_size + fed(f, q, from, heard).pending == f.pending + (q.music_l.len()
            - from),
        fed(f, q, from, heard).queue_l.len() == f.queue_l.len() + heard.len() * f.hop_size,
    decreases q.music_l.len() - from,
{
    if from < q.music_l.len() {
        lemma_chunk_in(f, q, from);
        let chunk = next_chunk(f, q.music_l.len() - from);
        let g = chunk_in(f, q, from, chunk);
        if g.pending == f.hop_size {
            lemma_hop_done(g, heard[0]);
            hops_are_heard_at_their_boundaries(
                tools,
                hop_done(g, heard[0]),
                q,
                from + chunk,
                heard.skip(1),
            );
            let h = f.hop_size as int;
            let n = heard.len() as int;
            assert(n * h == (n - 1) * h + h) by (nonlinear_arith);
        } else {
            hops_are_heard_at_their_boundaries(tools, g, q, from + chunk, heard);
        }
    } else {
        assert(0 * f.hop_size == 0) by (nonlinear_arith);
    }
}

/// What came in and went out is recorded channel by channel while recording is on, and nothing
/// is recorded while it is off.
pub proof fn cycles_are_recorded_by_channel(
    record: Record,
    recording: bool,
    q: FrameInput,
    out_l: Seq<Binary32>,
    out_r: Seq<Binary32>,
)
    ensures
        !recording ==> recorded(record, recording, q, out_l, out_r) == record,
        recording ==> {
            let r = recorded(record, recording, q, out_l, out_r);
            &&& r.music_l == record.music_l + q.music_l
            &&& r.music_r == record.music_r + q.music_r
            &&& r.voice_l == record.voice_l + q.voice_l
            &&& r.voice_r == record.voice_r + q.voice_r
            &&& r.output_l == record.output_l + out_l
            &&& r.output_r == record.output_r + out_r
        },
{
}

/// Each input of a cycle is what its own port brings, and silence where nothing is connected.
pub proof fn cycles_take_each_port(
    music_l: Option<&[Binary32]>,
    music_r: Option<&[Binary32]>,
    voice_l: Option<&[Binary32]>,
    voice_r: Option<&[Binary32]>,
    n: nat,
)
    ensures
        ({
            let q = cycle_input(music_l, music_r, voice_l, voice_r, n);
            &&& music_l matches Some(s) ==> q.music_l == s@
            &&& music_r matches Some(s) ==> q.music_r == s@
            &&& voice_l matches Some(s) ==> q.voice_l == s@
            &&& voice_r matches Some(s) ==> q.voice_r == s@
            &&& music_l is None ==> q.music_l.len() == n && all_zero(q.music_l)
            &&& music_r is None ==> q.music_r.len() == n && all_zero(q.music_r)
            &&& voice_l is None ==> q.voice_l.len() == n && all_zero(q.voice_l)
            &&& voice_r is None ==> q.voice_r.len() == n && all_zero(q.voice_r)
        }),
{
}

} // verus!
