//! What holds of the bridge as a whole.

use vstd::prelude::*;
use vstd::arithmetic::power2::*;
use crate::adapter;
use crate::adapter::AdapterModel;
use crate::carrier;
use crate::host;
use crate::ieee;
use crate::layout;
use crate::residual;
use crate::sample;
use crate::sample::{INFINITY32, INFINITY64, QUIET32, QUIET64};
use crate::scratch;

verus! {

/// The residual of the sample `t` of a stream of host samples, which is 0 before it starts.
pub open spec fn stream_residual(stream: Seq<u64>, t: int) -> u64 {
    if 0 <= t < stream.len() {
        carrier::residual(stream[t], sample::quantized(stream[t]))
    } else {
        0
    }
}

/// Whether a history holds the residuals of the newest samples of a stream of host samples.
pub open spec fn tracks(history: Seq<u64>, stream: Seq<u64>) -> bool {
    forall|k: int|
        0 <= k < history.len() ==> #[trigger] history[k] == stream_residual(
            stream,
            stream.len() - history.len() + k,
        )
}

/// What a transparent plugin with the given latency puts out for the sample `t` of a stream: the
/// quantized sample that came in `latency` samples earlier, and silence before the stream starts.
pub open spec fn transparent_output(stream: Seq<u64>, latency: nat, t: int) -> u32 {
    if 0 <= t - latency < stream.len() {
        sample::quantized(stream[t - latency])
    } else {
        0
    }
}

/// What a host bus carries on the channel `c` in a block: its samples, and silence where the host
/// passed none.
pub open spec fn host_block(
    host_input: Option<host::BusModel>,
    c: int,
    num_samples: nat,
) -> Seq<u64> {
    match host_input {
        Some(bus) => {
            if bus.has_channel(c) {
                bus.channel(c).take(num_samples as int)
            } else {
                Seq::new(num_samples, |i: int| 0u64)
            }
        },
        None => Seq::new(num_samples, |i: int| 0u64),
    }
}

/// Cutting a stream of residuals into blocks changes neither what is held nor what comes out.
pub proof fn law_blocks_join(history: Seq<u64>, first: Seq<u64>, second: Seq<u64>, latency: nat)
    ensures
        residual::advanced(residual::advanced(history, first), second) == residual::advanced(
            history,
            first + second,
        ),
        forall|i: int|
            0 <= i < first.len() ==> #[trigger] residual::delayed_sample(
                history,
                first,
                latency,
                i,
            ) == residual::delayed_sample(history, first + second, latency, i),
        forall|i: int|
            0 <= i < second.len() ==> #[trigger] residual::delayed_sample(
                residual::advanced(history, first),
                second,
                latency,
                i,
            ) == residual::delayed_sample(history, first + second, latency, first.len() + i),
{
    assert(residual::advanced(residual::advanced(history, first), second) =~= residual::advanced(
        history,
        first + second,
    ));
}

/// A residual that goes into a fresh delay comes out after as many samples as the latency has.
/// Before that there is silence, and so there is throughout if the latency is not covered.
pub proof fn law_latency_delays_residuals(
    capacity: nat,
    stream: Seq<u64>,
    latency: nat,
    t: int,
)
    requires
        0 <= t < stream.len(),
    ensures
        residual::delayed_sample(
            Seq::new(capacity, |k: int| 0u64),
            stream,
            latency,
            t,
        ) == if latency <= t && latency < capacity {
            stream[t - latency]
        } else {
            0
        },
{
}

/// The residual `t` of a stream of residuals, which is 0 before it starts.
pub open spec fn recorded(residuals: Seq<u64>, t: int) -> u64 {
    if 0 <= t < residuals.len() {
        residuals[t]
    } else {
        0
    }
}

/// Whether a history holds the newest of a stream of residuals.
pub open spec fn records(history: Seq<u64>, residuals: Seq<u64>) -> bool {
    forall|k: int|
        0 <= k < history.len() ==> #[trigger] history[k] == recorded(
            residuals,
            residuals.len() - history.len() + k,
        )
}

/// A fresh history records nothing, and each block that goes in is recorded.
pub proof fn law_history_records_residuals(
    capacity: nat,
    history: Seq<u64>,
    residuals: Seq<u64>,
    block: Seq<u64>,
)
    requires
        records(history, residuals),
    ensures
        records(Seq::new(capacity, |k: int| 0u64), Seq::empty()),
        records(residual::advanced(history, block), residuals + block),
{
    let after = residual::advanced(history, block);
    let joined = residuals + block;
    assert forall|k: int| 0 <= k < after.len() implies #[trigger] after[k] == recorded(
        joined,
        joined.len() - after.len() + k,
    ) by {
        let j = k + block.len();
        assert(after[k] == (history + block)[j]);
        if j < history.len() {
            assert(history[j] == recorded(residuals, residuals.len() - history.len() + j));
        }
    }
}

/// A block moves every ring on by as many samples as it has, whether the host supplied the channel
/// or not, and keeps the sizes and what lies beyond the block. Without a quantized input the rings
/// stay where they are.
pub proof fn law_block_moves_rings_on(
    delay: residual::DelayModel,
    quantized: Option<Seq<Seq<u32>>>,
    host_input: Option<host::BusModel>,
    num_samples: nat,
    latency: nat,
    c: int,
)
    requires
        delay.capacity > 0,
        delay.delayed.len() == delay.positions.len(),
        delay.histories.len() == delay.positions.len(),
        scratch::uniform(delay.histories, delay.capacity),
        0 <= c < delay.positions.len(),
        delay.positions[c] < delay.capacity,
    ensures
        ({
            let next = delay.prepared(quantized, host_input, num_samples, latency);
            &&& next.positions[c] == if quantized is Some {
                (delay.positions[c] + num_samples) % delay.capacity
            } else {
                delay.positions[c]
            }
            &&& next.positions[c] < delay.capacity
            &&& next.capacity == delay.capacity
            &&& next.positions.len() == delay.positions.len()
            &&& same_sizes(next.histories, delay.histories)
            &&& same_sizes(next.delayed, delay.delayed)
            &&& forall|i: int|
                num_samples <= i < delay.delayed[c].len() ==> #[trigger] next.delayed[c][i]
                    == delay.delayed[c][i]
        }),
{
}

/// A block of silence lets out the residuals that the latency held back, and silence after them.
/// It moves every ring on and keeps the sizes and what lies beyond the block.
pub proof fn law_silence_lets_residuals_out(
    delay: residual::DelayModel,
    residuals: Seq<u64>,
    num_samples: nat,
    latency: nat,
    c: int,
)
    requires
        latency < delay.capacity,
        delay.delayed.len() == delay.positions.len(),
        delay.histories.len() == delay.positions.len(),
        scratch::uniform(delay.histories, delay.capacity),
        0 <= c < delay.positions.len(),
        num_samples <= delay.delayed[c].len(),
        records(delay.histories[c], residuals),
    ensures
        ({
            let next = delay.silenced(num_samples, latency);
            &&& forall|i: int|
                0 <= i < num_samples ==> #[trigger] next.delayed[c][i] == if i < latency {
                    recorded(residuals, residuals.len() + i - latency)
                } else {
                    0
                }
            &&& forall|i: int|
                num_samples <= i < delay.delayed[c].len() ==> #[trigger] next.delayed[c][i]
                    == delay.delayed[c][i]
            &&& next.positions[c] == (delay.positions[c] + num_samples) % delay.capacity
            &&& next.capacity == delay.capacity
            &&& next.positions.len() == delay.positions.len()
            &&& same_sizes(next.histories, delay.histories)
            &&& same_sizes(next.delayed, delay.delayed)
        }),
{
    let next = delay.silenced(num_samples, latency);
    let history = delay.histories[c];
    let block = Seq::new(num_samples, |i: int| 0u64);
    assert(history.len() == delay.capacity);
    assert forall|i: int| 0 <= i < num_samples implies #[trigger] next.delayed[c][i] == if i
        < latency {
        recorded(residuals, residuals.len() + i - latency)
    } else {
        0
    } by {
        let j = history.len() + i - latency;
        assert(next.delayed[c][i] == (history + block)[j]);
        if i < latency {
            assert(history[j] == recorded(residuals, residuals.len() - history.len() + j));
        }
    }
}

/// Where the reported latency is not covered, no residual is added to the block.
pub proof fn law_uncovered_latency_adds_nothing(
    model: AdapterModel,
    data: host::DataModel,
    num_samples: nat,
    latency: nat,
    c: int,
    i: int,
)
    requires
        model.valid(),
        num_samples <= model.max_samples,
        latency >= model.residual.capacity,
        0 <= c < model.residual.delayed.len(),
        0 <= i < num_samples,
    ensures
        model.prepared(data, num_samples, latency).residual.delayed[c][i] == 0,
{
}

/// A new adapter has seen nothing of any stream.
pub proof fn law_fresh_adapter_tracks_nothing(
    max_samples: nat,
    audio_io_layout: layout::AudioIOLayout,
    capacity: nat,
    c: int,
)
    requires
        0 <= c < AdapterModel::fresh(
            max_samples,
            audio_io_layout,
            capacity,
        ).residual.histories.len(),
    ensures
        tracks(
            AdapterModel::fresh(max_samples, audio_io_layout, capacity).residual.histories[c],
            Seq::empty(),
        ),
{
}

/// Each block that the adapter takes in continues the stream of a channel.
pub proof fn law_blocks_continue_the_stream(
    model: AdapterModel,
    data: host::DataModel,
    num_samples: nat,
    latency: nat,
    c: int,
    stream: Seq<u64>,
)
    requires
        model.valid(),
        num_samples <= model.max_samples,
        model.can_read(data, num_samples),
        0 <= c < model.residual.histories.len(),
        tracks(model.residual.histories[c], stream),
    ensures
        tracks(
            model.prepared(data, num_samples, latency).residual.histories[c],
            stream + host_block(model.host_main_input(data), c, num_samples),
        ),
{
    let block = host_block(model.host_main_input(data), c, num_samples);
    let next = model.prepared(data, num_samples, latency);
    let before = model.residual.histories[c];
    let after = next.residual.histories[c];
    let residuals = residual::block_residuals(
        next.main_input->0,
        model.host_main_input(data),
        c,
        num_samples,
    );
    lemma_block_residuals(model, data, num_samples, latency, c);
    assert forall|k: int| 0 <= k < after.len() implies #[trigger] after[k] == stream_residual(
        stream + block,
        (stream + block).len() - after.len() + k,
    ) by {
        let j = k + num_samples;
        assert(after[k] == (before + residuals)[j]);
        if j < before.len() {
            assert(before[j] == stream_residual(stream, stream.len() - before.len() + j));
        } else {
            assert(residuals[j - before.len()] == stream_residual(block, j - before.len()));
        }
    }
}

/// The residuals of a block are those of the host samples that it carries.
proof fn lemma_block_residuals(
    model: AdapterModel,
    data: host::DataModel,
    num_samples: nat,
    latency: nat,
    c: int,
)
    requires
        model.valid(),
        num_samples <= model.max_samples,
        model.can_read(data, num_samples),
        0 <= c < model.residual.histories.len(),
    ensures
        host_block(model.host_main_input(data), c, num_samples).len() == num_samples,
        forall|i: int|
            0 <= i < num_samples ==> #[trigger] residual::block_residuals(
                model.prepared(data, num_samples, latency).main_input->0,
                model.host_main_input(data),
                c,
                num_samples,
            )[i] == stream_residual(host_block(model.host_main_input(data), c, num_samples), i),
        forall|i: int|
            0 <= i < num_samples ==> #[trigger] model.prepared(
                data,
                num_samples,
                latency,
            ).main_input->0[c][i] == sample::quantized(
                host_block(model.host_main_input(data), c, num_samples)[i],
            ),
{
    assert(model.main_input->0[c].len() == model.max_samples);
    law_silence_is_silent();
}

/// Without latency, a plugin that puts out what came in hands the host its own samples back: the
/// sample that is written to the output is the one that was read from the input.
pub proof fn law_zero_latency_transparent_path(
    model: AdapterModel,
    data: host::DataModel,
    num_samples: nat,
    processed: AdapterModel,
    c: int,
    i: int,
)
    requires
        model.valid(),
        num_samples <= model.max_samples,
        model.can_read(data, num_samples),
        processed.main_output is Some,
        processed.residual == model.prepared(data, num_samples, 0).residual,
        0 <= c < model.residual.histories.len(),
        c < processed.main_output->0.len(),
        0 <= i < num_samples,
        processed.host_main_output(data) matches Some(bus) && bus.has_channel(c)
            && bus.channel(c).len() >= num_samples,
        processed.main_output->0[c][i] == model.prepared(data, num_samples, 0).main_input->0[c][i],
        carrier::in_range(host_block(model.host_main_input(data), c, num_samples)[i]),
    ensures
        processed.written_back(data, num_samples).outputs->0[0].channel(c)[i] == carrier::restored(
            host_block(model.host_main_input(data), c, num_samples)[i],
        ),
{
    let host = host_block(model.host_main_input(data), c, num_samples)[i];
    let next = model.prepared(data, num_samples, 0);
    lemma_block_residuals(model, data, num_samples, 0, c);
    let residuals = residual::block_residuals(
        next.main_input->0,
        model.host_main_input(data),
        c,
        num_samples,
    );
    assert(model.residual.histories[c].len() == model.residual.capacity);
    assert(model.residual.delayed[c].len() == model.max_samples);
    assert(next.residual.delayed[c][i] == residuals[i]);
    carrier::law_residual_restores_host_sample(host);
}

/// With a latency that is covered, a plugin that delays what came in by that latency hands the
/// host its own samples back, delayed by that latency, however the stream is cut into blocks:
/// `stream` is what came in on a channel before this block.
pub proof fn law_latency_transparent_path(
    model: AdapterModel,
    data: host::DataModel,
    num_samples: nat,
    latency: nat,
    processed: AdapterModel,
    c: int,
    i: int,
    stream: Seq<u64>,
)
    requires
        model.valid(),
        num_samples <= model.max_samples,
        model.can_read(data, num_samples),
        latency < model.residual.capacity,
        processed.main_output is Some,
        processed.residual == model.prepared(data, num_samples, latency).residual,
        0 <= c < model.residual.histories.len(),
        c < processed.main_output->0.len(),
        0 <= i < num_samples,
        processed.host_main_output(data) matches Some(bus) && bus.has_channel(c)
            && bus.channel(c).len() >= num_samples,
        tracks(model.residual.histories[c], stream),
        ({
            let whole = stream + host_block(model.host_main_input(data), c, num_samples);
            let t = stream.len() + i;
            &&& processed.main_output->0[c][i] == transparent_output(whole, latency, t)
            &&& latency <= t ==> carrier::in_range(whole[t - latency])
        }),
    ensures
        ({
            let whole = stream + host_block(model.host_main_input(data), c, num_samples);
            let t = stream.len() + i;
            let after = processed.written_back(data, num_samples);
            after.outputs->0[0].channel(c)[i] == if latency <= t {
                carrier::restored(whole[t - latency])
            } else {
                0
            }
        }),
{
    let block = host_block(model.host_main_input(data), c, num_samples);
    let whole = stream + block;
    let t = stream.len() + i;
    let next = model.prepared(data, num_samples, latency);
    let history = model.residual.histories[c];
    let residuals = residual::block_residuals(
        next.main_input->0,
        model.host_main_input(data),
        c,
        num_samples,
    );
    lemma_block_residuals(model, data, num_samples, latency, c);
    assert(history.len() == model.residual.capacity);
    assert(model.residual.delayed[c].len() == model.max_samples);
    let added = next.residual.delayed[c][i];
    assert(added == residual::delayed_sample(history, residuals, latency, i));
    let j = history.len() + i - latency;
    assert(added == (history + residuals)[j]);
    if j < history.len() {
        assert(history[j] == stream_residual(stream, stream.len() - history.len() + j));
    } else {
        assert(residuals[j - history.len()] == stream_residual(block, j - history.len()));
    }
    assert(added == stream_residual(whole, t - latency));
    if latency <= t {
        carrier::law_residual_restores_host_sample(whole[t - latency]);
    } else {
        law_silence_is_silent();
    }
}

/// Silence is quantized to silence without a residual, and written to the host as zero.
pub proof fn law_silence_is_silent()
    ensures
        sample::quantized(0) == 0,
        carrier::residual(0, 0) == 0,
        sample::widened(0) == 0,
        sample::total(sample::widened(0), 0) == 0,
{
    carrier::law_widening_is_exact(0);
    lemma_pow2_pos(23);
    lemma_pow2_pos(52);
    assert(0 * pow2(sample::UNIT_PLACES as nat) == 0);
    ieee::lemma_nearest_exact(52, INFINITY64 as nat, 1, 0, 0);
    carrier::law_quantized_samples_have_no_residual(0);
}

/// A host sample that is not a finite number, or too large for the 32-bit format, leaves no
/// residual and comes back as its quantized form.
pub proof fn law_out_of_range_sample_is_quantized(host: u64)
    requires
        !carrier::in_range(host),
    ensures
        carrier::residual(host, sample::quantized(host)) == 0,
        sample::total(
            sample::widened(sample::quantized(host)),
            carrier::residual(host, sample::quantized(host)),
        ) == sample::widened(sample::quantized(host)),
{
    let q = sample::quantized(host);
    let w = sample::widened(q);
    lemma_pow2_pos(sample::UNIT_PLACES as nat);
    ieee::lemma_nearest_exists(
        23,
        INFINITY32 as nat,
        pow2(sample::UNIT_PLACES as nat),
        sample::units64(host),
    );
    assert(!sample::finite32(q)) by {
        if !sample::finite64(host) && !sample::nan64(host) {
            law_infinity_is_quantized_to_infinity(host);
        }
    }
    assert(sample::finite64(0));
    if sample::nan64(host) {
        assert(sample::nan32(q));
        assert(sample::magnitude32(q) >= INFINITY32 + QUIET32);
        assert(sample::nan64(w));
        assert(sample::magnitude64(w) >= INFINITY64 + QUIET64);
        assert(sample::quieted64(w) == w);
    }
}

/// Infinity is quantized to infinity.
pub proof fn law_infinity_is_quantized_to_infinity(host: u64)
    requires
        sample::magnitude64(host) == INFINITY64,
    ensures
        sample::magnitude32(sample::quantized(host)) == INFINITY32,
        sample::negative32(sample::quantized(host)) == sample::negative64(host),
        sample::widened(sample::quantized(host)) == host,
{
    let scale = pow2(sample::UNIT_PLACES as nat);
    lemma_pow2_pos(sample::UNIT_PLACES as nat);
    lemma2_to64();
    lemma2_to64_rest();
    ieee::lemma_units_at(52, 2046, pow2(52));
    ieee::lemma_units_at(23, 254, pow2(23));
    assert(sample::units64(host) == pow2(52) * pow2(2046));
    lemma_pow2_adds(52, 2046);
    lemma_pow2_adds(23, 254);
    lemma_pow2_adds(277, sample::UNIT_PLACES as nat);
    lemma_pow2_strictly_increases(1202, 2098);
    ieee::lemma_nearest_top(23, INFINITY32 as nat, scale, sample::units64(host));
    ieee::lemma_nearest_unique(
        23,
        INFINITY32 as nat,
        scale,
        sample::units64(host),
        INFINITY32 as nat,
    );
}

/// Whether two lists of channels have as many channels and samples.
pub open spec fn same_sizes<T>(a: Seq<Seq<T>>, b: Seq<Seq<T>>) -> bool {
    &&& a.len() == b.len()
    &&& forall|c: int| 0 <= c < a.len() ==> (#[trigger] a[c]).len() == b[c].len()
}

/// Taking in a block changes no size: nothing is allocated after the adapter was made.
pub proof fn law_block_keeps_sizes(
    model: AdapterModel,
    data: host::DataModel,
    num_samples: nat,
    latency: nat,
)
    requires
        model.valid(),
    ensures
        ({
            let next = model.prepared(data, num_samples, latency);
            &&& next.valid()
            &&& next.max_samples == model.max_samples
            &&& next.main_input is Some <==> model.main_input is Some
            &&& next.main_input is Some ==> same_sizes(next.main_input->0, model.main_input->0)
            &&& next.main_output is Some <==> model.main_output is Some
            &&& next.main_output is Some ==> same_sizes(next.main_output->0, model.main_output->0)
            &&& next.aux_inputs.len() == model.aux_inputs.len()
            &&& forall|b: int|
                0 <= b < model.aux_inputs.len() ==> same_sizes(
                    #[trigger] next.aux_inputs[b],
                    model.aux_inputs[b],
                )
            &&& next.aux_outputs.len() == model.aux_outputs.len()
            &&& forall|b: int|
                0 <= b < model.aux_outputs.len() ==> same_sizes(
                    #[trigger] next.aux_outputs[b],
                    model.aux_outputs[b],
                )
            &&& next.residual.capacity == model.residual.capacity
            &&& next.residual.positions.len() == model.residual.positions.len()
            &&& same_sizes(next.residual.histories, model.residual.histories)
            &&& same_sizes(next.residual.delayed, model.residual.delayed)
        }),
{
    adapter::lemma_prepared_valid(model, data, num_samples, latency);
}

/// Writing a block back changes the connected output buses and nothing else of the host's: no
/// input, no bus that is not connected, no sample beyond the block.
pub proof fn law_write_back_leaves_the_rest(
    model: AdapterModel,
    data: host::DataModel,
    num_samples: nat,
)
    requires
        model.valid(),
    ensures
        ({
            let after = model.written_back(data, num_samples);
            &&& after.num_inputs == data.num_inputs
            &&& after.num_outputs == data.num_outputs
            &&& after.inputs == data.inputs
            &&& after.outputs is Some <==> data.outputs is Some
            &&& data.outputs is Some ==> {
                &&& after.outputs->0.len() == data.outputs->0.len()
                &&& forall|j: int|
                    0 <= j < data.outputs->0.len() && !(#[trigger] data.outputs->0[j].connected())
                        ==> after.outputs->0[j] == data.outputs->0[j]
                &&& forall|j: int, c: int, i: int|
                    #![trigger after.outputs->0[j].channel(c)[i]]
                    0 <= j < data.outputs->0.len() && data.outputs->0[j].has_channel(c)
                        && num_samples <= i < data.outputs->0[j].channel(c).len()
                        ==> after.outputs->0[j].channel(c)[i] == data.outputs->0[j].channel(c)[i]
            }
        }),
{
}

/// A latency bound of one second covers every latency of up to as many samples as a second has.
pub proof fn law_one_second_covers_the_sample_rate(sample_rate: u32)
    requires
        sample::finite32(sample_rate),
        !sample::negative32(sample_rate),
        sample::ceiling(sample::widened(sample_rate)) < usize::MAX,
    ensures
        layout::capacity_for(sample_rate, 0x3ff0_0000_0000_0000) == sample::ceiling(
            sample::widened(sample_rate),
        ) + 1,
{
    let one = 0x3ff0_0000_0000_0000u64;
    let w = sample::widened(sample_rate);
    carrier::law_widening_is_exact(sample_rate);
    lemma2_to64_rest();
    ieee::lemma_units_at(52, 1022, pow2(52));
    lemma_pow2_adds(52, 1022);
    lemma_pow2_pos(1074);
    assert(sample::units64(one) == pow2(1074));
    assert(layout::bounded(one) == one);
    ieee::lemma_nearest_exact(
        52,
        INFINITY64 as nat,
        pow2(1074),
        sample::units64(w) * pow2(1074),
        sample::magnitude64(w),
    );
    assert(sample::scaled(w, one) == w);
}

} // verus!
