//! What the parts of the bridge do, sample by sample: the host buffers, the channels of one bus,
//! the residual delay and the class ID.

use vstd::prelude::*;
use crate::carrier;
use crate::class_id;
use crate::class_id::Platform;
use crate::host;
use crate::host::{AudioBusBuffers, ProcessData};
use crate::residual;
use crate::residual::DelayModel;
use crate::sample;
use crate::scratch;

verus! {

/// The model of a host bus holds its channel count and, in the same places, the samples of its
/// buffers.
pub proof fn law_bus_model_is_faithful(bus: AudioBusBuffers)
    ensures
        bus@.num_channels == bus.num_channels,
        bus@.buffers is Some <==> bus.buffers is Some,
        bus.buffers is Some ==> bus@.buffers->0.len() == bus.buffers->0@.len(),
        bus.buffers is Some ==> forall|c: int|
            0 <= c < bus.buffers->0@.len() ==> ((#[trigger] bus@.buffers->0[c]) is Some
                <==> bus.buffers->0@[c] is Some),
        bus.buffers is Some ==> forall|c: int|
            0 <= c < bus.buffers->0@.len() && bus.buffers->0@[c] is Some
                ==> #[trigger] bus@.buffers->0[c] == Some(bus.buffers->0@[c]->0@),
{
}

/// The model of a block holds the bus counts and, in the same places, the models of the buses.
pub proof fn law_data_model_is_faithful(data: ProcessData)
    ensures
        data@.num_inputs == data.num_inputs,
        data@.num_outputs == data.num_outputs,
        data@.inputs is Some <==> data.inputs is Some,
        data@.outputs is Some <==> data.outputs is Some,
        data@.inputs == host::busses_model(data.inputs),
        data@.outputs == host::busses_model(data.outputs),
        data.inputs is Some ==> data@.inputs->0.len() == data.inputs->0@.len(),
        data.outputs is Some ==> data@.outputs->0.len() == data.outputs->0@.len(),
        data.inputs is Some ==> forall|j: int|
            0 <= j < data.inputs->0@.len() ==> #[trigger] data@.inputs->0[j]
                == data.inputs->0@[j]@,
        data.outputs is Some ==> forall|j: int|
            0 <= j < data.outputs->0@.len() ==> #[trigger] data@.outputs->0[j]
                == data.outputs->0@[j]@,
{
}

/// The model of a list of channels holds the samples of each channel in its place.
pub proof fn law_channels_model_is_faithful<T>(channels: Seq<Vec<T>>)
    ensures
        scratch::channels_model(channels).len() == channels.len(),
        forall|c: int|
            0 <= c < channels.len() ==> #[trigger] scratch::channels_model(channels)[c]
                == channels[c]@,
{
}

/// A host bus is found exactly if the table has it within the count, and it has a channel table
/// and at least one channel; the bus that is found is the one at that place.
pub proof fn law_host_bus_is_found(
    busses: Option<Seq<host::BusModel>>,
    num_busses: int,
    index: int,
)
    ensures
        ({
            let found = host::connected_bus(busses, num_busses, index);
            &&& found is Some <==> (busses is Some && 0 <= index < num_busses && index
                < busses->0.len() && busses->0[index].buffers is Some
                && busses->0[index].num_channels > 0)
            &&& found is Some ==> found == Some(busses->0[index])
        }),
{
}

/// A channel has a buffer exactly if it is within the channel count and the channel table holds a
/// buffer for it, which then is the channel.
pub proof fn law_host_channel_is_found(bus: host::BusModel, c: int)
    ensures
        bus.connected() <==> bus.buffers is Some && bus.num_channels > 0,
        bus.has_channel(c) <==> (bus.buffers is Some && 0 <= c < bus.num_channels && c
            < bus.buffers->0.len() && bus.buffers->0[c] is Some),
        bus.has_channel(c) ==> bus.buffers->0[c] == Some(bus.channel(c)),
{
}

/// A bus holds enough samples exactly if each of its first channels with a buffer does.
pub proof fn law_bus_holds_enough(bus: host::BusModel, width: nat, num_samples: nat)
    ensures
        bus.holds(width, num_samples) <==> (bus.buffers is Some ==> forall|c: int|
            0 <= c < width && c < bus.num_channels && c < bus.buffers->0.len()
                && (#[trigger] bus.buffers->0[c]) is Some ==> bus.buffers->0[c]->0.len()
                >= num_samples),
{
    if bus.holds(width, num_samples) && bus.buffers is Some {
        assert forall|c: int|
            0 <= c < width && c < bus.num_channels && c < bus.buffers->0.len()
                && (#[trigger] bus.buffers->0[c]) is Some implies bus.buffers->0[c]->0.len()
            >= num_samples by {
            assert(bus.has_channel(c));
        }
    }
}

/// Channels are uniform exactly if each of them has the given length.
pub proof fn law_uniform_channels_have_one_length<T>(channels: Seq<Seq<T>>, len: nat)
    ensures
        scratch::uniform(channels, len) <==> forall|c: int|
            0 <= c < channels.len() ==> (#[trigger] channels[c]).len() == len,
{
}

/// New channels are silent and of the length that was asked for.
pub proof fn law_new_channels_are_silent<T>(num_channels: nat, len: nat, zero: T)
    ensures
        scratch::silence(num_channels, len, zero).len() == num_channels,
        forall|c: int|
            0 <= c < num_channels ==> (#[trigger] scratch::silence(num_channels, len, zero)[c]).len()
                == len,
        forall|c: int, i: int|
            #![trigger scratch::silence(num_channels, len, zero)[c][i]]
            0 <= c < num_channels && 0 <= i < len ==> scratch::silence(
                num_channels,
                len,
                zero,
            )[c][i] == zero,
{
}

/// Clearing silences the block on every channel and nothing else.
pub proof fn law_clearing_silences_the_block<T>(
    channels: Seq<Seq<T>>,
    num_samples: nat,
    zero: T,
    c: int,
    i: int,
)
    requires
        0 <= c < channels.len(),
        0 <= i < channels[c].len(),
    ensures
        ({
            let after = scratch::cleared(channels, num_samples, zero);
            &&& after.len() == channels.len()
            &&& after[c].len() == channels[c].len()
            &&& after[c][i] == if i < num_samples { zero } else { channels[c][i] }
        }),
{
}

/// Loading puts the quantized host samples into every channel that the host passed, silences the
/// block on every other one, and changes nothing beyond the block.
pub proof fn law_loading_quantizes_the_block(
    channels: Seq<Seq<u32>>,
    bus: host::BusModel,
    num_samples: nat,
    c: int,
    i: int,
)
    requires
        0 <= c < channels.len(),
        0 <= i < channels[c].len(),
    ensures
        ({
            let after = scratch::loaded(channels, bus, num_samples);
            &&& after.len() == channels.len()
            &&& after[c].len() == channels[c].len()
            &&& after[c][i] == if i >= num_samples {
                channels[c][i]
            } else if bus.buffers is Some && c < bus.num_channels && c < bus.buffers->0.len()
                && bus.buffers->0[c] is Some {
                sample::quantized(bus.buffers->0[c]->0[i])
            } else {
                0
            }
        }),
{
}

/// Storing writes every channel that both sides have: the widened sample plus its residual, which
/// is 0 where there is none. It changes nothing else of the bus.
pub proof fn law_storing_widens_the_block(
    channels: Seq<Seq<u32>>,
    bus: host::BusModel,
    num_samples: nat,
    residual: Option<Seq<Seq<u64>>>,
)
    ensures
        ({
            let after = scratch::stored(channels, bus, num_samples, residual);
            &&& after.num_channels == bus.num_channels
            &&& after.buffers is Some <==> bus.buffers is Some
            &&& bus.buffers is Some ==> after.buffers->0.len() == bus.buffers->0.len()
            &&& bus.buffers is Some ==> forall|c: int|
                0 <= c < bus.buffers->0.len() ==> {
                    let line = #[trigger] after.buffers->0[c];
                    &&& line is Some <==> bus.buffers->0[c] is Some
                    &&& c >= channels.len() || c >= bus.num_channels ==> line
                        == bus.buffers->0[c]
                    &&& line is Some ==> line->0.len() == bus.buffers->0[c]->0.len()
                }
            &&& bus.buffers is Some ==> forall|c: int, i: int|
                #![trigger after.buffers->0[c]->0[i]]
                0 <= c < bus.buffers->0.len() && c < channels.len() && c < bus.num_channels
                    && bus.buffers->0[c] is Some && 0 <= i < bus.buffers->0[c]->0.len()
                    ==> after.buffers->0[c]->0[i] == if i >= num_samples {
                    bus.buffers->0[c]->0[i]
                } else {
                    sample::total(
                        sample::widened(channels[c][i]),
                        if residual is Some && c < residual->0.len() {
                            residual->0[c][i]
                        } else {
                            0
                        },
                    )
                }
        }),
{
}

/// Channels, host buffers and residuals that all hold the block leave room to store it.
pub proof fn law_room_to_store_suffices(
    channels: Seq<Seq<u32>>,
    bus: host::BusModel,
    num_samples: nat,
    residual: Option<Seq<Seq<u64>>>,
)
    requires
        forall|c: int| 0 <= c < channels.len() ==> (#[trigger] channels[c]).len() >= num_samples,
        bus.buffers is Some ==> forall|c: int|
            0 <= c < bus.buffers->0.len() && (#[trigger] bus.buffers->0[c]) is Some
                ==> bus.buffers->0[c]->0.len() >= num_samples,
        residual is Some ==> forall|c: int|
            0 <= c < residual->0.len() ==> (#[trigger] residual->0[c]).len() >= num_samples,
    ensures
        scratch::can_store(channels, bus, num_samples, residual),
{
}

/// A new delay has a silent history of the length that was asked for on each channel, starts each
/// ring at its beginning, and gives out silence.
pub proof fn law_new_delay_is_silent(num_channels: nat, max_samples: nat, capacity: nat)
    ensures
        ({
            let fresh = DelayModel::fresh(num_channels, max_samples, capacity);
            &&& fresh.capacity == capacity
            &&& fresh.histories.len() == num_channels
            &&& fresh.positions.len() == num_channels
            &&& fresh.delayed.len() == num_channels
            &&& forall|c: int| 0 <= c < num_channels ==> #[trigger] fresh.positions[c] == 0
            &&& forall|c: int|
                0 <= c < num_channels ==> #[trigger] fresh.histories[c] == Seq::new(
                    capacity,
                    |k: int| 0u64,
                )
            &&& forall|c: int|
                0 <= c < num_channels ==> #[trigger] fresh.delayed[c] == Seq::new(
                    max_samples,
                    |i: int| 0u64,
                )
        }),
{
}

/// What a block does to one channel of the delay. The residual of a sample is that of the host
/// sample and its quantized form, and 0 without either. Given out is what went in `latency` samples
/// earlier, if the history reaches back that far; the history keeps the newest residuals.
pub proof fn law_delay_takes_in_the_block(
    delay: DelayModel,
    quantized: Seq<Seq<u32>>,
    host_input: Option<host::BusModel>,
    num_samples: nat,
    latency: nat,
    c: int,
)
    requires
        0 <= c < delay.histories.len(),
        delay.histories.len() == delay.delayed.len(),
        delay.histories.len() == delay.positions.len(),
        delay.histories[c].len() == delay.capacity,
    ensures
        ({
            let after = delay.prepared(Some(quantized), host_input, num_samples, latency);
            let capacity = delay.capacity;
            let went_in = |k: int|
                {
                    let host = host_input->0.buffers->0[c]->0[k];
                    if host_input is Some && host_input->0.buffers is Some && c
                        < host_input->0.num_channels && c < host_input->0.buffers->0.len()
                        && host_input->0.buffers->0[c] is Some && c < quantized.len()
                        && sample::finite64(host) && sample::finite32(quantized[c][k]) {
                        sample::remainder(host, sample::widened(quantized[c][k]))
                    } else {
                        0u64
                    }
                };
            &&& after.capacity == capacity
            &&& after.positions[c] == (delay.positions[c] + num_samples) % capacity
            &&& after.histories[c].len() == capacity
            &&& forall|k: int|
                0 <= k < capacity ==> #[trigger] after.histories[c][k] == if k + num_samples
                    < capacity {
                    delay.histories[c][k + num_samples]
                } else {
                    went_in(k + num_samples - capacity)
                }
            &&& after.delayed[c].len() == delay.delayed[c].len()
            &&& forall|i: int|
                0 <= i < delay.delayed[c].len() ==> #[trigger] after.delayed[c][i] == if i
                    >= num_samples {
                    delay.delayed[c][i]
                } else if latency >= capacity {
                    0
                } else if i >= latency {
                    went_in(i - latency)
                } else {
                    delay.histories[c][capacity - latency + i]
                }
        }),
{
}

/// Without a quantized input a block leaves the histories and the rings as they are, and gives out
/// silence.
pub proof fn law_delay_without_input_is_silent(
    delay: DelayModel,
    host_input: Option<host::BusModel>,
    num_samples: nat,
    latency: nat,
)
    ensures
        ({
            let after = delay.prepared(None, host_input, num_samples, latency);
            &&& after.capacity == delay.capacity
            &&& after.histories == delay.histories
            &&& after.positions == delay.positions
            &&& after.delayed.len() == delay.delayed.len()
            &&& forall|c: int|
                0 <= c < delay.delayed.len() ==> (#[trigger] after.delayed[c]).len()
                    == delay.delayed[c].len()
            &&& forall|c: int, i: int|
                #![trigger after.delayed[c][i]]
                0 <= c < delay.delayed.len() && 0 <= i < delay.delayed[c].len()
                    ==> after.delayed[c][i] == if i < num_samples { 0 } else { delay.delayed[c][i] }
        }),
{
}

/// What a block of silence does to one channel of the delay: zeros go in, what went in `latency`
/// samples earlier is given out, and nothing is given out where the history does not reach back
/// that far.
pub proof fn law_delay_takes_in_silence(
    delay: DelayModel,
    num_samples: nat,
    latency: nat,
    c: int,
)
    requires
        0 <= c < delay.histories.len(),
        delay.histories.len() == delay.delayed.len(),
        delay.histories.len() == delay.positions.len(),
        delay.histories[c].len() == delay.capacity,
    ensures
        ({
            let after = delay.silenced(num_samples, latency);
            let capacity = delay.capacity;
            &&& after.capacity == capacity
            &&& after.histories.len() == delay.histories.len()
            &&& after.delayed.len() == delay.delayed.len()
            &&& after.positions.len() == delay.positions.len()
            &&& after.positions[c] == (delay.positions[c] + num_samples) % capacity
            &&& after.histories[c].len() == capacity
            &&& forall|k: int|
                0 <= k < capacity ==> #[trigger] after.histories[c][k] == if k + num_samples
                    < capacity {
                    delay.histories[c][k + num_samples]
                } else {
                    0
                }
            &&& after.delayed[c].len() == delay.delayed[c].len()
            &&& forall|i: int|
                0 <= i < delay.delayed[c].len() ==> #[trigger] after.delayed[c][i] == if i
                    >= num_samples || latency >= capacity {
                    delay.delayed[c][i]
                } else if i >= latency {
                    0
                } else {
                    delay.histories[c][capacity - latency + i]
                }
        }),
{
}

/// The residual of a host sample is its difference from the quantized form where both are finite
/// numbers, and 0 elsewhere.
pub proof fn law_residual_is_the_difference(host: u64, quantized: u32)
    ensures
        sample::finite64(host) && sample::finite32(quantized) ==> carrier::residual(
            host,
            quantized,
        ) == sample::remainder(host, sample::widened(quantized)),
        !sample::finite64(host) || !sample::finite32(quantized) ==> carrier::residual(
            host,
            quantized,
        ) == 0,
{
}

/// A history advances by dropping its oldest residuals for those of the block.
pub proof fn law_history_keeps_the_newest(history: Seq<u64>, block: Seq<u64>)
    ensures
        residual::advanced(history, block).len() == history.len(),
        forall|k: int|
            0 <= k < history.len() ==> #[trigger] residual::advanced(history, block)[k] == if k
                + block.len() < history.len() {
                history[k + block.len()]
            } else {
                block[k + block.len() - history.len()]
            },
{
}

/// On Windows the first four bytes of the class ID and each of the next two pairs are reversed,
/// and the other eight stay; on other platforms all of them stay.
pub proof fn law_class_id_byte_order(uid: Seq<u8>)
    requires
        uid.len() == 16,
    ensures
        class_id::ordered(uid, Platform::Windows) == seq![
            uid[3],
            uid[2],
            uid[1],
            uid[0],
            uid[5],
            uid[4],
            uid[7],
            uid[6],
            uid[8],
            uid[9],
            uid[10],
            uid[11],
            uid[12],
            uid[13],
            uid[14],
            uid[15],
        ],
        class_id::windows::swapped(uid) == class_id::ordered(uid, Platform::Windows),
        class_id::ordered(uid, Platform::Other) == uid,
{
    assert(class_id::ordered(uid, Platform::Windows) =~= seq![
        uid[3],
        uid[2],
        uid[1],
        uid[0],
        uid[5],
        uid[4],
        uid[7],
        uid[6],
        uid[8],
        uid[9],
        uid[10],
        uid[11],
        uid[12],
        uid[13],
        uid[14],
        uid[15],
    ]);
}

} // verus!
