//! What holds of the processing, frame after frame.

use crate::binary32::Binary32;
use crate::blend::{is_share, one};
use crate::compressor::{frames_are_lifted_within_bounds, in_order, is_boost, raises};
use crate::config::MaskingConfig;
use crate::level::{mean_root, squares_of, Complex};
use crate::mask_laws::{all_shares, closed_gate_touches_nothing, in_range, mask_in_range, maskable};
use crate::order::{lemma_one, one_changes_nothing};
use crate::pipeline::{
    channel_mask, lowest, masked, part_heard, pipeline_after, sized, FrameHeard, FrameInput,
    MusicPart, PipelineView, Tools,
};
use crate::spectral_mask::bins;
use crate::voice_gate::{
    closed_gate_stays_at_zero, decibel, envelope_stays_share, gate_after,
    noise_floor_stays_in_bounds, noise_in_bounds,
};
use vstd::prelude::*;

verus! {

/// Whether no mask has touched the music yet.
pub open spec fn untouched(p: PipelineView) -> bool {
    &&& p.mask_l.smoothed =~= Seq::new(bins(p.mask_l.fft_size), |k: int| one())
    &&& p.mask_r.smoothed =~= Seq::new(bins(p.mask_r.fft_size), |k: int| one())
    &&& p.gate.envelope.code() == 0
}

/// Whether all bins of a spectrum are numbers.
pub open spec fn all_numbers(spectrum: Seq<Complex>) -> bool {
    forall|k: int|
        0 <= k < spectrum.len() ==> !(#[trigger] spectrum[k]).re.nan() && !spectrum[k].im.nan()
}

/// For as long as nobody speaks, the music is left as it is: the spectrum that is synthesised
/// is the spectrum of the music, bit for bit, and the next frame finds everything untouched.
pub proof fn music_without_voice_is_untouched(
    p: PipelineView,
    input: FrameInput,
    config: MaskingConfig,
    heard: FrameHeard,
)
    requires
        sized(p),
        untouched(p),
        is_share(p.gate.alpha_release),
        !pipeline_after(p, input, config, heard).gate.gate_open,
        heard.floor.at_most(one()),
        heard.left.music.len() == bins(p.mask_l.fft_size),
        heard.right.music.len() == bins(p.mask_r.fft_size),
        all_numbers(heard.left.music),
        all_numbers(heard.right.music),
    ensures
        untouched(pipeline_after(p, input, config, heard)),
        masked(
            heard.left.music,
            channel_mask(pipeline_after(p, input, config, heard).mask_l, heard.floor, config),
        ) == heard.left.music,
        masked(
            heard.right.music,
            channel_mask(pipeline_after(p, input, config, heard).mask_r, heard.floor, config),
        ) == heard.right.music,
{
    reveal(pipeline_after);
    let after = pipeline_after(p, input, config, heard);
    closed_gate_stays_at_zero(p.gate, decibel(heard.gate_log));
    closed_gate_touches_nothing(
        p.mask_l,
        heard.left.voice_mag,
        heard.left.music_mag,
        after.gate.envelope,
        heard.floor,
        config,
    );
    closed_gate_touches_nothing(
        p.mask_r,
        heard.right.voice_mag,
        heard.right.music_mag,
        after.gate.envelope,
        heard.floor,
        config,
    );
    let mask_l = channel_mask(after.mask_l, heard.floor, config);
    let mask_r = channel_mask(after.mask_r, heard.floor, config);
    lemma_mask_of_one(heard.left.music, mask_l);
    lemma_mask_of_one(heard.right.music, mask_r);
}

/// A mask of one everywhere changes no spectrum.
proof fn lemma_mask_of_one(spectrum: Seq<Complex>, mask: Seq<Binary32>)
    requires
        mask.len() == spectrum.len(),
        forall|k: int| 0 <= k < mask.len() ==> #[trigger] mask[k] == one(),
        all_numbers(spectrum),
    ensures
        masked(spectrum, mask) == spectrum,
{
    assert forall|k: int| 0 <= k < spectrum.len() implies masked(spectrum, mask)[k]
        == spectrum[k] by {
        assert(mask[k] == one());
        assert(!spectrum[k].re.nan());
        one_changes_nothing(spectrum[k].re);
        one_changes_nothing(spectrum[k].im);
    }
    assert(masked(spectrum, mask) =~= spectrum);
}

/// Whether all that is smoothed lies where it should: masks and envelope between zero and one,
/// gains between one and the greatest gain, the noise floor within its bounds.
pub open spec fn settled(p: PipelineView) -> bool {
    &&& all_shares(p.mask_l.smoothed)
    &&& all_shares(p.mask_r.smoothed)
    &&& is_share(p.gate.envelope)
    &&& noise_in_bounds(p.gate.noise_floor_db)
    &&& is_boost(p.compressor_l.smoothed_gain)
    &&& is_boost(p.compressor_r.smoothed_gain)
}

/// Whether all weights of old values lie between zero and one, and the compressors are set as
/// they should be.
pub open spec fn weighted(p: PipelineView) -> bool {
    &&& is_share(p.gate.alpha_attack)
    &&& is_share(p.gate.alpha_release)
    &&& in_order(p.compressor_l)
    &&& in_order(p.compressor_r)
}

/// What is smoothed stays where it should, frame after frame, and every mask that is handed
/// out lies between the floor and one. Powers of ten are at least one for exponents that are not
/// below zero.
pub proof fn processing_stays_settled<
    L: Fn(Binary32) -> Binary32,
    P: Fn(Binary32) -> Binary32,
    N: Fn(Complex) -> Binary32,
    F: Fn(Vec<Binary32>) -> Vec<Complex>,
    I: Fn(Vec<Complex>) -> Vec<Binary32>,
>(
    tools: Tools<L, P, N, F, I>,
    p: PipelineView,
    input: FrameInput,
    config: MaskingConfig,
    mix: Binary32,
    part: MusicPart,
    heard: FrameHeard,
)
    requires
        sized(p),
        settled(p),
        weighted(p),
        maskable(config),
        is_share(heard.floor),
        !decibel(heard.gate_log).nan(),
        raises(tools.pow10),
        part_heard(tools, p, input, config, mix, part, heard),
    ensures
        sized(pipeline_after(p, input, config, heard)),
        settled(pipeline_after(p, input, config, heard)),
        weighted(pipeline_after(p, input, config, heard)),
        in_range(
            channel_mask(pipeline_after(p, input, config, heard).mask_l, heard.floor, config),
            heard.floor,
        ),
        in_range(
            channel_mask(pipeline_after(p, input, config, heard).mask_r, heard.floor, config),
            heard.floor,
        ),
{
    reveal(pipeline_after);
    lemma_one();
    let db = decibel(heard.gate_log);
    envelope_stays_share(p.gate, db);
    noise_floor_stays_in_bounds(p.gate, db);
    let envelope = gate_after(p.gate, db).envelope;
    mask_in_range(
        p.mask_l,
        heard.left.voice_mag,
        heard.left.music_mag,
        envelope,
        heard.floor,
        config,
    );
    mask_in_range(
        p.mask_r,
        heard.right.voice_mag,
        heard.right.music_mag,
        envelope,
        heard.floor,
        config,
    );
    reveal(part_heard);
    frames_are_lifted_within_bounds(
        p.compressor_l,
        mean_root(squares_of(input.voice_l)),
        tools.log10,
        tools.pow10,
        heard.left.log,
        heard.left.power,
        one(),
    );
    frames_are_lifted_within_bounds(
        p.compressor_r,
        mean_root(squares_of(input.voice_r)),
        tools.log10,
        tools.pow10,
        heard.right.log,
        heard.right.power,
        one(),
    );
}

/// The lowest value of a mask is one of its values, and none is below it.
pub proof fn lowest_is_lowest(mask: Seq<Binary32>, k: int)
    requires
        0 <= k < mask.len(),
        forall|j: int| 0 <= j < mask.len() ==> !(#[trigger] mask[j]).nan(),
    ensures
        lowest(mask).at_most(mask[k]),
        mask.contains(lowest(mask)),
    decreases mask.len(),
{
    if mask.len() == 1 {
        assert(mask[0] == lowest(mask));
    } else {
        let rest = mask.drop_last();
        let last = mask.last();
        assert(mask[mask.len() - 1] == last);
        assert(!mask[mask.len() - 1].nan());
        assert forall|j: int| 0 <= j < rest.len() implies !(#[trigger] rest[j]).nan() by {
            assert(!mask[j].nan());
        }
        if k < rest.len() {
            lowest_is_lowest(rest, k);
            assert(rest[k] == mask[k]);
        } else {
            lowest_is_lowest(rest, 0);
        }
        let m = lowest(rest);
        let i = choose|i: int| 0 <= i < rest.len() && rest[i] == m;
        assert(mask[i] == m);
        assert(!rest[i].nan());
    }
}

/// The lowest mask value of all frames is not above any value that a frame hands out, on either
/// side, nor above what it was before; and it is one of these.
pub proof fn lowest_mask_of_all_is_kept(
    p: PipelineView,
    input: FrameInput,
    config: MaskingConfig,
    heard: FrameHeard,
    k: int,
)
    requires
        sized(p),
        0 <= k < p.mask_l.smoothed.len(),
        !p.mask_min.nan(),
        ({
            let after = pipeline_after(p, input, config, heard);
            let left = channel_mask(after.mask_l, heard.floor, config);
            let right = channel_mask(after.mask_r, heard.floor, config);
            &&& forall|j: int| 0 <= j < left.len() ==> !(#[trigger] left[j]).nan()
            &&& forall|j: int| 0 <= j < right.len() ==> !(#[trigger] right[j]).nan()
        }),
    ensures
        ({
            let after = pipeline_after(p, input, config, heard);
            let left = channel_mask(after.mask_l, heard.floor, config);
            let right = channel_mask(after.mask_r, heard.floor, config);
            &&& after.mask_min.at_most(p.mask_min)
            &&& after.mask_min.at_most(left[k])
            &&& after.mask_min.at_most(right[k])
            &&& after.mask_min == p.mask_min || left.contains(after.mask_min) || right.contains(
                after.mask_min,
            )
        }),
{
    reveal(pipeline_after);
    let after = pipeline_after(p, input, config, heard);
    let left = channel_mask(after.mask_l, heard.floor, config);
    let right = channel_mask(after.mask_r, heard.floor, config);
    assert(left.len() == right.len());
    lowest_is_lowest(left, k);
    lowest_is_lowest(right, k);
}

} // verus!
