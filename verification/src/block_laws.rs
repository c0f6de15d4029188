//! What one block does to the channels of the adapter and to the buffers of the host, sample by
//! sample.
//!
//! The host bus of a main bus is the first one, and that of the auxiliary bus `b` comes `b` places
//! after it, or is the `b`-th where there is no main bus. A host bus counts if the table of the
//! host has it and it has a channel table and at least one channel; a channel counts if its bus
//! does, its number is below the number of channels and the host passed a buffer for it.

use vstd::prelude::*;
use crate::adapter::AdapterModel;
use crate::host;
use crate::layout::AudioIOLayout;
use crate::sample;

verus! {

/// Every channel of the main input that the host passed holds the quantized host samples after
/// `prepare`, whatever the main output has; every other channel is silent. Samples beyond the
/// block stay as they are.
pub proof fn law_main_input_is_quantized(
    model: AdapterModel,
    data: host::DataModel,
    num_samples: nat,
    latency: nat,
    c: int,
    i: int,
)
    requires
        model.main_input is Some,
        0 <= c < model.main_input->0.len(),
        0 <= i < model.main_input->0[c].len(),
    ensures
        ({
            let next = model.prepared(data, num_samples, latency);
            &&& next.main_input is Some
            &&& next.main_input->0.len() == model.main_input->0.len()
            &&& next.main_input->0[c].len() == model.main_input->0[c].len()
            &&& next.main_input->0[c][i] == if i >= num_samples {
                model.main_input->0[c][i]
            } else if data.inputs is Some && 0 < data.num_inputs && 0 < data.inputs->0.len()
                && data.inputs->0[0].buffers is Some && c < data.inputs->0[0].num_channels && c
                < data.inputs->0[0].buffers->0.len() && data.inputs->0[0].buffers->0[c] is Some {
                sample::quantized(data.inputs->0[0].buffers->0[c]->0[i])
            } else {
                0
            }
        }),
{
}

/// Every channel of an auxiliary input that the host passed holds the quantized host samples after
/// `prepare`, and every other one is silent. Samples beyond the block stay as they are.
pub proof fn law_aux_inputs_are_quantized(
    model: AdapterModel,
    data: host::DataModel,
    num_samples: nat,
    latency: nat,
    b: int,
    c: int,
    i: int,
)
    requires
        0 <= b < model.aux_inputs.len(),
        0 <= c < model.aux_inputs[b].len(),
        0 <= i < model.aux_inputs[b][c].len(),
    ensures
        ({
            let next = model.prepared(data, num_samples, latency);
            let j: int = if model.main_input is Some { b + 1 } else { b };
            &&& next.aux_inputs.len() == model.aux_inputs.len()
            &&& next.aux_inputs[b].len() == model.aux_inputs[b].len()
            &&& next.aux_inputs[b][c].len() == model.aux_inputs[b][c].len()
            &&& next.aux_inputs[b][c][i] == if i >= num_samples {
                model.aux_inputs[b][c][i]
            } else if data.inputs is Some && j < data.num_inputs && j < data.inputs->0.len()
                && data.inputs->0[j].buffers is Some && c < data.inputs->0[j].num_channels && c
                < data.inputs->0[j].buffers->0.len() && data.inputs->0[j].buffers->0[c] is Some {
                sample::quantized(data.inputs->0[j].buffers->0[c]->0[i])
            } else {
                0
            }
        }),
{
}

/// Every output channel is silent after `prepare`. Samples beyond the block stay as they are.
pub proof fn law_outputs_are_silenced(
    model: AdapterModel,
    data: host::DataModel,
    num_samples: nat,
    latency: nat,
)
    ensures
        ({
            let next = model.prepared(data, num_samples, latency);
            &&& next.main_output is Some <==> model.main_output is Some
            &&& model.main_output is Some ==> next.main_output->0.len()
                == model.main_output->0.len()
            &&& model.main_output is Some ==> forall|c: int|
                0 <= c < model.main_output->0.len() ==> (#[trigger] next.main_output->0[c]).len()
                    == model.main_output->0[c].len()
            &&& model.main_output is Some ==> forall|c: int, i: int|
                #![trigger next.main_output->0[c][i]]
                0 <= c < model.main_output->0.len() && 0 <= i < model.main_output->0[c].len()
                    ==> next.main_output->0[c][i] == if i < num_samples {
                    0
                } else {
                    model.main_output->0[c][i]
                }
            &&& next.aux_outputs.len() == model.aux_outputs.len()
            &&& forall|b: int|
                0 <= b < model.aux_outputs.len() ==> (#[trigger] next.aux_outputs[b]).len()
                    == model.aux_outputs[b].len()
            &&& forall|b: int, c: int|
                #![trigger next.aux_outputs[b][c]]
                0 <= b < model.aux_outputs.len() && 0 <= c < model.aux_outputs[b].len()
                    ==> next.aux_outputs[b][c].len() == model.aux_outputs[b][c].len()
            &&& forall|b: int, c: int, i: int|
                #![trigger next.aux_outputs[b][c][i]]
                0 <= b < model.aux_outputs.len() && 0 <= c < model.aux_outputs[b].len() && 0 <= i
                    < model.aux_outputs[b][c].len() ==> next.aux_outputs[b][c][i] == if i
                    < num_samples {
                    0
                } else {
                    model.aux_outputs[b][c][i]
                }
        }),
{
}

/// After `prepare` a bus is marked as present exactly if the plugin has it and the host connected
/// it. A main bus that the plugin does not have is not made up, and the block length stays.
pub proof fn law_presence_is_connection(
    model: AdapterModel,
    data: host::DataModel,
    num_samples: nat,
    latency: nat,
)
    ensures
        ({
            let next = model.prepared(data, num_samples, latency);
            &&& next.max_samples == model.max_samples
            &&& next.main_input is Some <==> model.main_input is Some
            &&& next.main_input_present <==> (model.main_input is Some && data.inputs is Some && 0
                < data.num_inputs && 0 < data.inputs->0.len() && data.inputs->0[0].buffers is Some
                && data.inputs->0[0].num_channels > 0)
            &&& next.main_output_present <==> (model.main_output is Some && data.outputs is Some
                && 0 < data.num_outputs && 0 < data.outputs->0.len()
                && data.outputs->0[0].buffers is Some && data.outputs->0[0].num_channels > 0)
            &&& next.aux_inputs_present.len() == model.aux_inputs.len()
            &&& forall|b: int|
                0 <= b < model.aux_inputs.len() ==> {
                    let j: int = if model.main_input is Some { b + 1 } else { b };
                    #[trigger] next.aux_inputs_present[b] <==> (data.inputs is Some && j
                        < data.num_inputs && j < data.inputs->0.len()
                        && data.inputs->0[j].buffers is Some && data.inputs->0[j].num_channels > 0)
                }
            &&& next.aux_outputs_present.len() == model.aux_outputs.len()
            &&& forall|b: int|
                0 <= b < model.aux_outputs.len() ==> {
                    let j: int = if model.main_output is Some { b + 1 } else { b };
                    #[trigger] next.aux_outputs_present[b] <==> (data.outputs is Some && j
                        < data.num_outputs && j < data.outputs->0.len()
                        && data.outputs->0[j].buffers is Some && data.outputs->0[j].num_channels
                        > 0)
                }
        }),
{
}

/// The residual that goes in for a sample of the main input is the difference between the host
/// sample and its quantized form, and 0 where there is no host sample or one of the two is not a
/// finite number. `prepare` gives out what went in `latency` samples earlier, from the block or
/// from the history, and nothing where the history does not reach back that far. The history
/// keeps the newest residuals, and every ring moves on by the length of the block.
pub proof fn law_main_residuals_are_delayed(
    model: AdapterModel,
    data: host::DataModel,
    num_samples: nat,
    latency: nat,
    c: int,
)
    requires
        model.valid(),
        num_samples <= model.max_samples,
        0 <= c < model.residual.histories.len(),
    ensures
        ({
            let before = model.residual;
            let after = model.prepared(data, num_samples, latency).residual;
            let capacity = before.capacity;
            let went_in = |k: int|
                {
                    let host = data.inputs->0[0].buffers->0[c]->0[k];
                    if data.inputs is Some && 0 < data.num_inputs && 0 < data.inputs->0.len()
                        && data.inputs->0[0].buffers is Some && c < data.inputs->0[0].num_channels
                        && c < data.inputs->0[0].buffers->0.len()
                        && data.inputs->0[0].buffers->0[c] is Some && sample::finite64(host)
                        && sample::finite32(sample::quantized(host)) {
                        sample::remainder(host, sample::widened(sample::quantized(host)))
                    } else {
                        0u64
                    }
                };
            &&& after.capacity == capacity
            &&& after.histories.len() == before.histories.len()
            &&& after.delayed.len() == before.delayed.len()
            &&& after.positions.len() == before.positions.len()
            &&& after.histories[c].len() == capacity
            &&& after.delayed[c].len() == before.delayed[c].len()
            &&& after.positions[c] == (before.positions[c] + num_samples) % capacity
            &&& forall|k: int|
                0 <= k < capacity ==> #[trigger] after.histories[c][k] == if k + num_samples
                    < capacity {
                    before.histories[c][k + num_samples]
                } else {
                    went_in(k + num_samples - capacity)
                }
            &&& forall|i: int|
                0 <= i < before.delayed[c].len() ==> #[trigger] after.delayed[c][i] == if i
                    >= num_samples {
                    before.delayed[c][i]
                } else if latency >= capacity {
                    0
                } else if i >= latency {
                    went_in(i - latency)
                } else {
                    before.histories[c][capacity - latency + i]
                }
        }),
{
    assert(model.main_input->0[c].len() == model.max_samples);
    let next = model.prepared(data, num_samples, latency);
    assert(model.residual.histories[c].len() == model.residual.capacity);
    assert forall|i: int| 0 <= i < num_samples implies #[trigger] next.main_input->0[c][i]
        == if data.inputs is Some && 0 < data.num_inputs && 0 < data.inputs->0.len()
        && data.inputs->0[0].buffers is Some && c < data.inputs->0[0].num_channels && c
        < data.inputs->0[0].buffers->0.len() && data.inputs->0[0].buffers->0[c] is Some {
        sample::quantized(data.inputs->0[0].buffers->0[c]->0[i])
    } else {
        0
    } by {
        law_main_input_is_quantized(model, data, num_samples, latency, c, i);
    }
}

/// Every sample of the main output that the host passed a buffer for is written back: what the
/// plugin put out, widened, plus the delayed residual where the channel has one and 0 where it has
/// none. This holds for whatever the plugin put out.
pub proof fn law_main_output_is_written(
    model: AdapterModel,
    data: host::DataModel,
    num_samples: nat,
    c: int,
    i: int,
)
    requires
        model.main_output is Some,
        data.outputs is Some,
        0 < data.num_outputs,
        0 < data.outputs->0.len(),
        data.outputs->0[0].buffers is Some,
        0 <= c < model.main_output->0.len(),
        c < data.outputs->0[0].num_channels,
        c < data.outputs->0[0].buffers->0.len(),
        data.outputs->0[0].buffers->0[c] is Some,
        0 <= i < num_samples,
        i < data.outputs->0[0].buffers->0[c]->0.len(),
    ensures
        ({
            let after = model.written_back(data, num_samples);
            let carried: u64 = if c < model.residual.delayed.len() {
                model.residual.delayed[c][i]
            } else {
                0
            };
            after.outputs->0[0].buffers->0[c]->0[i] == sample::total(
                sample::widened(model.main_output->0[c][i]),
                carried,
            )
        }),
{
}

/// Every sample of every auxiliary output that the host passed a buffer for is written back: what
/// the plugin put out, widened.
pub proof fn law_aux_outputs_are_written(
    model: AdapterModel,
    data: host::DataModel,
    num_samples: nat,
    b: int,
    c: int,
    i: int,
)
    requires
        0 <= b < model.aux_outputs.len(),
        data.outputs is Some,
        ({
            let j: int = if model.main_output is Some { b + 1 } else { b };
            &&& j < data.num_outputs
            &&& j < data.outputs->0.len()
            &&& data.outputs->0[j].buffers is Some
            &&& 0 <= c < model.aux_outputs[b].len()
            &&& c < data.outputs->0[j].num_channels
            &&& c < data.outputs->0[j].buffers->0.len()
            &&& data.outputs->0[j].buffers->0[c] is Some
            &&& 0 <= i < num_samples
            &&& i < data.outputs->0[j].buffers->0[c]->0.len()
        }),
    ensures
        ({
            let j: int = if model.main_output is Some { b + 1 } else { b };
            let after = model.written_back(data, num_samples);
            after.outputs->0[j].buffers->0[c]->0[i] == sample::total(
                sample::widened(model.aux_outputs[b][c][i]),
                0,
            )
        }),
{
}

/// Writing back changes no input, no count and no size, no bus that the plugin does not have or
/// the host did not connect, no channel that the plugin does not have or the host passed no buffer
/// for, and no sample beyond the block.
pub proof fn law_nothing_else_is_written(
    model: AdapterModel,
    data: host::DataModel,
    num_samples: nat,
)
    ensures
        ({
            let after = model.written_back(data, num_samples);
            &&& after.num_inputs == data.num_inputs
            &&& after.num_outputs == data.num_outputs
            &&& after.inputs == data.inputs
            &&& after.outputs is Some <==> data.outputs is Some
            &&& data.outputs is Some ==> after.outputs->0.len() == data.outputs->0.len()
        }),
        forall|j: int|
            data.outputs is Some && 0 <= j < data.outputs->0.len() ==> {
                let after = #[trigger] model.written_back(data, num_samples).outputs->0[j];
                let before = data.outputs->0[j];
                let start: int = if model.main_output is Some { 1 } else { 0 };
                let channels: int = if j < start {
                    model.main_output->0.len() as int
                } else if j < start + model.aux_outputs.len() && j < data.num_outputs {
                    model.aux_outputs[j - start].len() as int
                } else {
                    0
                };
                &&& after.num_channels == before.num_channels
                &&& after.buffers is Some <==> before.buffers is Some
                &&& before.buffers is Some ==> after.buffers->0.len() == before.buffers->0.len()
                &&& j >= data.num_outputs || before.num_channels <= 0 ==> after == before
                &&& before.buffers is Some ==> forall|c: int|
                    0 <= c < before.buffers->0.len() ==> {
                        &&& (#[trigger] after.buffers->0[c]) is Some <==> before.buffers->0[c] is Some
                        &&& c >= channels || c >= before.num_channels ==> after.buffers->0[c]
                            == before.buffers->0[c]
                        &&& before.buffers->0[c] is Some ==> after.buffers->0[c]->0.len()
                            == before.buffers->0[c]->0.len()
                        &&& before.buffers->0[c] is Some ==> forall|i: int|
                            num_samples <= i < before.buffers->0[c]->0.len()
                                ==> #[trigger] after.buffers->0[c]->0[i]
                                == before.buffers->0[c]->0[i]
                    }
            },
{
}

/// A new adapter has the buses of the layout with their numbers of channels, a residual history
/// for each channel that both main buses have, and silence in all of them; no bus is present.
pub proof fn law_fresh_adapter_follows_the_layout(
    max_samples: nat,
    layout: AudioIOLayout,
    capacity: nat,
)
    ensures
        ({
            let fresh = AdapterModel::fresh(max_samples, layout, capacity);
            let inputs: int = match layout.main_input_channels {
                Some(n) => n as int,
                None => 0,
            };
            let outputs: int = match layout.main_output_channels {
                Some(n) => n as int,
                None => 0,
            };
            &&& fresh.max_samples == max_samples
            &&& fresh.main_input is Some <==> inputs > 0
            &&& inputs > 0 ==> fresh.main_input->0.len() == inputs
            &&& inputs > 0 ==> forall|c: int|
                0 <= c < inputs ==> #[trigger] fresh.main_input->0[c] == Seq::new(
                    max_samples,
                    |i: int| 0u32,
                )
            &&& fresh.main_output is Some <==> outputs > 0
            &&& outputs > 0 ==> fresh.main_output->0.len() == outputs
            &&& outputs > 0 ==> forall|c: int|
                0 <= c < outputs ==> #[trigger] fresh.main_output->0[c] == Seq::new(
                    max_samples,
                    |i: int| 0u32,
                )
            &&& fresh.aux_inputs.len() == layout.aux_input_ports@.len()
            &&& forall|b: int|
                0 <= b < layout.aux_input_ports@.len() ==> (#[trigger] fresh.aux_inputs[b]).len()
                    == layout.aux_input_ports@[b]
            &&& forall|b: int, c: int|
                #![trigger fresh.aux_inputs[b][c]]
                0 <= b < layout.aux_input_ports@.len() && 0 <= c < layout.aux_input_ports@[b]
                    ==> fresh.aux_inputs[b][c] == Seq::new(max_samples, |i: int| 0u32)
            &&& fresh.aux_outputs.len() == layout.aux_output_ports@.len()
            &&& forall|b: int|
                0 <= b < layout.aux_output_ports@.len() ==> (#[trigger] fresh.aux_outputs[b]).len()
                    == layout.aux_output_ports@[b]
            &&& forall|b: int, c: int|
                #![trigger fresh.aux_outputs[b][c]]
                0 <= b < layout.aux_output_ports@.len() && 0 <= c < layout.aux_output_ports@[b]
                    ==> fresh.aux_outputs[b][c] == Seq::new(max_samples, |i: int| 0u32)
            &&& !fresh.main_input_present && !fresh.main_output_present
            &&& fresh.aux_inputs_present == Seq::new(
                layout.aux_input_ports@.len(),
                |b: int| false,
            )
            &&& fresh.aux_outputs_present == Seq::new(
                layout.aux_output_ports@.len(),
                |b: int| false,
            )
            &&& fresh.residual.capacity == capacity
            &&& fresh.residual.histories.len() == if inputs <= outputs { inputs } else { outputs }
            &&& fresh.residual.delayed.len() == fresh.residual.histories.len()
            &&& fresh.residual.positions.len() == fresh.residual.histories.len()
            &&& forall|c: int|
                0 <= c < fresh.residual.histories.len() ==> #[trigger] fresh.residual.histories[c]
                    == Seq::new(capacity, |k: int| 0u64)
            &&& forall|c: int|
                0 <= c < fresh.residual.delayed.len() ==> #[trigger] fresh.residual.delayed[c]
                    == Seq::new(max_samples, |i: int| 0u64)
            &&& forall|c: int|
                0 <= c < fresh.residual.positions.len() ==> #[trigger] fresh.residual.positions[c]
                    == 0
        }),
{
    let fresh = AdapterModel::fresh(max_samples, layout, capacity);
    assert forall|b: int, c: int|
        #![trigger fresh.aux_inputs[b][c]]
        0 <= b < layout.aux_input_ports@.len() && 0 <= c < layout.aux_input_ports@[b] implies
        fresh.aux_inputs[b][c] == Seq::new(max_samples, |i: int| 0u32) by {
        assert(fresh.aux_inputs[b][c] =~= Seq::new(max_samples, |i: int| 0u32));
    }
    assert forall|b: int, c: int|
        #![trigger fresh.aux_outputs[b][c]]
        0 <= b < layout.aux_output_ports@.len() && 0 <= c < layout.aux_output_ports@[b] implies
        fresh.aux_outputs[b][c] == Seq::new(max_samples, |i: int| 0u32) by {
        assert(fresh.aux_outputs[b][c] =~= Seq::new(max_samples, |i: int| 0u32));
    }
}

/// An adapter without buses takes blocks of every length.
pub proof fn law_without_buses_every_block_fits(
    model: AdapterModel,
    data: host::DataModel,
    num_samples: nat,
)
    requires
        model.main_input is None,
        model.main_output is None,
        model.aux_inputs.len() == 0,
        model.aux_outputs.len() == 0,
    ensures
        model.fits(num_samples),
        model.can_read(data, num_samples),
        model.can_write(data, num_samples),
{
}

/// A block that is no longer than the channels fits, and host buffers that all hold as many
/// samples can be read and written.
pub proof fn law_room_for_the_block_suffices(
    model: AdapterModel,
    data: host::DataModel,
    num_samples: nat,
)
    requires
        model.valid(),
        num_samples <= model.max_samples,
        data.inputs is Some ==> forall|j: int, c: int|
            #![trigger data.inputs->0[j].buffers->0[c]]
            0 <= j < data.inputs->0.len() && data.inputs->0[j].buffers is Some && 0 <= c
                < data.inputs->0[j].buffers->0.len() && data.inputs->0[j].buffers->0[c] is Some
                ==> data.inputs->0[j].buffers->0[c]->0.len() >= num_samples,
        data.outputs is Some ==> forall|j: int, c: int|
            #![trigger data.outputs->0[j].buffers->0[c]]
            0 <= j < data.outputs->0.len() && data.outputs->0[j].buffers is Some && 0 <= c
                < data.outputs->0[j].buffers->0.len() && data.outputs->0[j].buffers->0[c] is Some
                ==> data.outputs->0[j].buffers->0[c]->0.len() >= num_samples,
    ensures
        model.fits(num_samples),
        model.can_read(data, num_samples),
        model.can_write(data, num_samples),
{
}

} // verus!
