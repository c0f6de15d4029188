//! The bridge between 64-bit host buffers and a plugin that processes 32-bit samples.

use vstd::prelude::*;
use crate::host;
use crate::host::{host_bus, host_bus_mut, AudioBusBuffers, ProcessData};
use crate::layout;
use crate::layout::{channel_count, residual_capacity, AudioIOLayout};
use crate::residual;
use crate::residual::ResidualDelay;
use crate::scratch;
use crate::scratch::F32BusScratch;

verus! {

/// Preallocated storage for the 64-bit host boundary. All sizes are fixed when it is made.
pub struct F64BufferAdapter {
    max_samples: usize,
    main_input: Option<F32BusScratch>,
    main_output: Option<F32BusScratch>,
    aux_inputs: Vec<F32BusScratch>,
    aux_outputs: Vec<F32BusScratch>,
    main_input_present: bool,
    main_output_present: bool,
    aux_inputs_present: Vec<bool>,
    aux_outputs_present: Vec<bool>,
    residual_delay: ResidualDelay,
}

/// What an adapter holds: the 32-bit channels of each bus, which of the buses the host connected
/// in the current block, and the delayed residuals of the main bus.
#[verifier::ext_equal]
pub struct AdapterModel {
    pub max_samples: nat,
    pub main_input: Option<Seq<Seq<u32>>>,
    pub main_output: Option<Seq<Seq<u32>>>,
    pub aux_inputs: Seq<Seq<Seq<u32>>>,
    pub aux_outputs: Seq<Seq<Seq<u32>>>,
    pub main_input_present: bool,
    pub main_output_present: bool,
    pub aux_inputs_present: Seq<bool>,
    pub aux_outputs_present: Seq<bool>,
    pub residual: residual::DelayModel,
}

/// What an optional bus holds.
pub open spec fn bus_model(bus: Option<F32BusScratch>) -> Option<Seq<Seq<u32>>> {
    match bus {
        Some(scratch) => Some(scratch@),
        None => None,
    }
}

/// What a list of buses holds.
pub open spec fn list_model(busses: Seq<F32BusScratch>) -> Seq<Seq<Seq<u32>>> {
    Seq::new(busses.len(), |b: int| busses[b]@)
}

/// The channels that a bus has.
pub open spec fn width(bus: Option<Seq<Seq<u32>>>) -> nat {
    match bus {
        Some(channels) => channels.len(),
        None => 0,
    }
}

/// A main bus, which is absent if it has no channels.
pub open spec fn silent_bus(num_channels: nat, max_samples: nat) -> Option<Seq<Seq<u32>>> {
    if num_channels > 0 {
        Some(scratch::silence(num_channels, max_samples, 0u32))
    } else {
        None
    }
}

/// The auxiliary buses of the given ports.
pub open spec fn silent_busses(ports: Seq<u32>, max_samples: nat) -> Seq<Seq<Seq<u32>>> {
    Seq::new(ports.len(), |b: int| scratch::silence(ports[b] as nat, max_samples, 0u32))
}

/// The lesser of two naturals.
pub open spec fn lesser(a: nat, b: nat) -> nat {
    if a <= b {
        a
    } else {
        b
    }
}

/// An input bus after a block: loaded from the host bus, or silent without one.
pub open spec fn filled(
    channels: Seq<Seq<u32>>,
    bus: Option<host::BusModel>,
    num_samples: nat,
) -> Seq<Seq<u32>> {
    match bus {
        Some(bus) => scratch::loaded(channels, bus, num_samples),
        None => scratch::cleared(channels, num_samples, 0u32),
    }
}

impl AdapterModel {
    /// An adapter for the given layout, before the first block.
    pub open spec fn fresh(
        max_samples: nat,
        audio_io_layout: AudioIOLayout,
        capacity: nat,
    ) -> AdapterModel {
        let inputs = layout::channels_of(audio_io_layout.main_input_channels);
        let outputs = layout::channels_of(audio_io_layout.main_output_channels);
        AdapterModel {
            max_samples,
            main_input: silent_bus(inputs, max_samples),
            main_output: silent_bus(outputs, max_samples),
            aux_inputs: silent_busses(audio_io_layout.aux_input_ports@, max_samples),
            aux_outputs: silent_busses(audio_io_layout.aux_output_ports@, max_samples),
            main_input_present: false,
            main_output_present: false,
            aux_inputs_present: Seq::new(audio_io_layout.aux_input_ports@.len(), |b: int| false),
            aux_outputs_present: Seq::new(audio_io_layout.aux_output_ports@.len(), |b: int| false),
            residual: residual::DelayModel::fresh(lesser(inputs, outputs), max_samples, capacity),
        }
    }

    /// Every channel holds `max_samples` samples, every bus has a presence mark, and there is a
    /// residual history of the same length, with a ring position inside it, for each channel that
    /// both main buses have.
    pub open spec fn valid(self) -> bool {
        &&& self.main_input matches Some(channels) ==> scratch::uniform(channels, self.max_samples)
        &&& self.main_output matches Some(channels) ==> scratch::uniform(
            channels,
            self.max_samples,
        )
        &&& forall|b: int|
            0 <= b < self.aux_inputs.len() ==> scratch::uniform(
                #[trigger] self.aux_inputs[b],
                self.max_samples,
            )
        &&& forall|b: int|
            0 <= b < self.aux_outputs.len() ==> scratch::uniform(
                #[trigger] self.aux_outputs[b],
                self.max_samples,
            )
        &&& self.aux_inputs_present.len() == self.aux_inputs.len()
        &&& self.aux_outputs_present.len() == self.aux_outputs.len()
        &&& self.main_input_present ==> self.main_input is Some
        &&& self.main_output_present ==> self.main_output is Some
        &&& self.residual.capacity > 0
        &&& self.residual.histories.len() == lesser(width(self.main_input), width(self.main_output))
        &&& self.residual.delayed.len() == self.residual.histories.len()
        &&& self.residual.positions.len() == self.residual.histories.len()
        &&& forall|c: int|
            0 <= c < self.residual.positions.len() ==> #[trigger] self.residual.positions[c]
                < self.residual.capacity
        &&& scratch::uniform(self.residual.histories, self.residual.capacity)
        &&& scratch::uniform(self.residual.delayed, self.max_samples)
    }

    /// Whether a block of `num_samples` samples fits into the channels, if there are any.
    pub open spec fn fits(self, num_samples: nat) -> bool {
        ||| num_samples <= self.max_samples
        ||| {
            &&& self.main_input is None
            &&& self.main_output is None
            &&& self.aux_inputs.len() == 0
            &&& self.aux_outputs.len() == 0
        }
    }

    /// The index of the first auxiliary input among the host buses.
    pub open spec fn aux_input_start(self) -> int {
        if self.main_input is Some {
            1
        } else {
            0
        }
    }

    /// The index of the first auxiliary output among the host buses.
    pub open spec fn aux_output_start(self) -> int {
        if self.main_output is Some {
            1
        } else {
            0
        }
    }

    /// The host bus for the main input.
    pub open spec fn host_main_input(self, data: host::DataModel) -> Option<host::BusModel> {
        if self.main_input is Some {
            host::connected_bus(data.inputs, data.num_inputs, 0)
        } else {
            None
        }
    }

    /// The host bus for the main output.
    pub open spec fn host_main_output(self, data: host::DataModel) -> Option<host::BusModel> {
        if self.main_output is Some {
            host::connected_bus(data.outputs, data.num_outputs, 0)
        } else {
            None
        }
    }

    /// The host bus for the auxiliary input `b`.
    pub open spec fn host_aux_input(self, data: host::DataModel, b: int) -> Option<host::BusModel> {
        host::connected_bus(data.inputs, data.num_inputs, b + self.aux_input_start())
    }

    /// The host bus for the auxiliary output `b`.
    pub open spec fn host_aux_output(self, data: host::DataModel, b: int) -> Option<
        host::BusModel,
    > {
        host::connected_bus(data.outputs, data.num_outputs, b + self.aux_output_start())
    }

    /// Whether the host buffers that the adapter reads hold `num_samples` samples.
    pub open spec fn can_read(self, data: host::DataModel, num_samples: nat) -> bool {
        &&& self.host_main_input(data) matches Some(bus) ==> bus.holds(
            width(self.main_input),
            num_samples,
        )
        &&& forall|b: int|
            0 <= b < self.aux_inputs.len() ==> (#[trigger] self.host_aux_input(
                data,
                b,
            ) matches Some(bus) ==> bus.holds(self.aux_inputs[b].len(), num_samples))
    }

    /// Whether there is room for `num_samples` samples wherever the adapter writes to the host.
    pub open spec fn can_write(self, data: host::DataModel, num_samples: nat) -> bool {
        &&& self.host_main_output(data) matches Some(bus) ==> scratch::can_store(
            self.main_output->0,
            bus,
            num_samples,
            Some(self.residual.delayed),
        )
        &&& forall|b: int|
            0 <= b < self.aux_outputs.len() ==> (#[trigger] self.host_aux_output(
                data,
                b,
            ) matches Some(bus) ==> scratch::can_store(
                self.aux_outputs[b],
                bus,
                num_samples,
                None,
            ))
    }

    /// The adapter after it took in a block: the inputs are quantized, the outputs silent, and
    /// the residuals of the main input delayed by the latency of the plugin.
    pub open spec fn prepared(
        self,
        data: host::DataModel,
        num_samples: nat,
        latency: nat,
    ) -> AdapterModel {
        let host_input = self.host_main_input(data);
        let main_input = match self.main_input {
            Some(channels) => Some(filled(channels, host_input, num_samples)),
            None => None,
        };
        AdapterModel {
            max_samples: self.max_samples,
            main_input,
            main_output: match self.main_output {
                Some(channels) => Some(scratch::cleared(channels, num_samples, 0u32)),
                None => None,
            },
            aux_inputs: Seq::new(
                self.aux_inputs.len(),
                |b: int| filled(self.aux_inputs[b], self.host_aux_input(data, b), num_samples),
            ),
            aux_outputs: Seq::new(
                self.aux_outputs.len(),
                |b: int| scratch::cleared(self.aux_outputs[b], num_samples, 0u32),
            ),
            main_input_present: host_input is Some,
            main_output_present: self.host_main_output(data) is Some,
            aux_inputs_present: Seq::new(
                self.aux_inputs.len(),
                |b: int| self.host_aux_input(data, b) is Some,
            ),
            aux_outputs_present: Seq::new(
                self.aux_outputs.len(),
                |b: int| self.host_aux_output(data, b) is Some,
            ),
            residual: self.residual.prepared(main_input, host_input, num_samples, latency),
        }
    }

    /// The host buses after a block was written back: the main output with the delayed residuals
    /// added, the auxiliary outputs as they are.
    pub open spec fn written_back(
        self,
        data: host::DataModel,
        num_samples: nat,
    ) -> host::DataModel {
        host::DataModel {
            outputs: match data.outputs {
                Some(busses) => Some(
                    Seq::new(
                        busses.len(),
                        |j: int| self.written_bus(data, busses[j], j, num_samples),
                    ),
                ),
                None => None,
            },
            ..data
        }
    }

    /// The host output bus `j` after a block was written back.
    pub open spec fn written_bus(
        self,
        data: host::DataModel,
        bus: host::BusModel,
        j: int,
        num_samples: nat,
    ) -> host::BusModel {
        let b = j - self.aux_output_start();
        if host::connected_bus(data.outputs, data.num_outputs, j) is None {
            bus
        } else if b < 0 {
            scratch::stored(self.main_output->0, bus, num_samples, Some(self.residual.delayed))
        } else if b < self.aux_outputs.len() {
            scratch::stored(self.aux_outputs[b], bus, num_samples, None)
        } else {
            bus
        }
    }
}

impl View for F64BufferAdapter {
    type V = AdapterModel;

    closed spec fn view(&self) -> AdapterModel {
        AdapterModel {
            max_samples: self.max_samples as nat,
            main_input: bus_model(self.main_input),
            main_output: bus_model(self.main_output),
            aux_inputs: list_model(self.aux_inputs@),
            aux_outputs: list_model(self.aux_outputs@),
            main_input_present: self.main_input_present,
            main_output_present: self.main_output_present,
            aux_inputs_present: self.aux_inputs_present@,
            aux_outputs_present: self.aux_outputs_present@,
            residual: self.residual_delay@,
        }
    }
}

/// Scratch channels for auxiliary ports.
fn scratch_for_ports(ports: &[u32], max_samples: usize) -> (r: Vec<F32BusScratch>)
    ensures
        list_model(r@) == silent_busses(ports@, max_samples as nat),
{
    let mut busses: Vec<F32BusScratch> = Vec::with_capacity(ports.len());
    let mut b: usize = 0;
    while b < ports.len()
        invariant
            b <= ports@.len(),
            busses@.len() == b,
            forall|k: int|
                0 <= k < b ==> (#[trigger] busses@[k])@ == scratch::silence(
                    ports@[k] as nat,
                    max_samples as nat,
                    0u32,
                ),
        decreases ports@.len() - b,
    {
        busses.push(F32BusScratch::new(ports[b] as usize, max_samples));
        b += 1;
    }
    assert(list_model(busses@) =~= silent_busses(ports@, max_samples as nat));
    busses
}

/// Marks that say of `len` buses that the host did not connect them.
fn absent(len: usize) -> (r: Vec<bool>)
    ensures
        r@ == Seq::new(len as nat, |b: int| false),
{
    let mut marks: Vec<bool> = Vec::with_capacity(len);
    let mut b: usize = 0;
    while b < len
        invariant
            b <= len,
            marks@ =~= Seq::new(b as nat, |k: int| false),
        decreases len - b,
    {
        marks.push(false);
        b += 1;
    }
    marks
}

impl F64BufferAdapter {
    /// The model is valid, and so is the residual delay.
    pub closed spec fn well_formed(&self) -> bool {
        self.residual_delay.well_formed() && self@.valid()
    }

    /// A well-formed adapter holds a valid model.
    pub proof fn lemma_valid(&self)
        requires
            self.well_formed(),
        ensures
            self@.valid(),
    {
    }

    /// Allocates an adapter for blocks of up to `max_samples` samples. The residual delay covers
    /// `max_latency_seconds` at `sample_rate`; both are bit patterns, of 64 and 32 bits.
    pub fn for_audio_io_layout(
        max_samples: usize,
        audio_io_layout: AudioIOLayout,
        sample_rate: u32,
        max_latency_seconds: u64,
    ) -> (r: Self)
        requires
            max_samples * 8 <= isize::MAX,
            layout::capacity_for(sample_rate, max_latency_seconds) * 8 <= isize::MAX,
        ensures
            r.well_formed(),
            r@ == AdapterModel::fresh(
                max_samples as nat,
                audio_io_layout,
                layout::capacity_for(sample_rate, max_latency_seconds),
            ),
    {
        let main_input_channels = channel_count(audio_io_layout.main_input_channels);
        let main_output_channels = channel_count(audio_io_layout.main_output_channels);
        let residual_channels: usize = if main_input_channels <= main_output_channels {
            main_input_channels
        } else {
            main_output_channels
        };
        let capacity = residual_capacity(sample_rate, max_latency_seconds);
        let r = F64BufferAdapter {
            max_samples,
            main_input: if main_input_channels > 0 {
                Some(F32BusScratch::new(main_input_channels, max_samples))
            } else {
                None
            },
            main_output: if main_output_channels > 0 {
                Some(F32BusScratch::new(main_output_channels, max_samples))
            } else {
                None
            },
            aux_inputs: scratch_for_ports(audio_io_layout.aux_input_ports, max_samples),
            aux_outputs: scratch_for_ports(audio_io_layout.aux_output_ports, max_samples),
            main_input_present: false,
            main_output_present: false,
            aux_inputs_present: absent(audio_io_layout.aux_input_ports.len()),
            aux_outputs_present: absent(audio_io_layout.aux_output_ports.len()),
            residual_delay: ResidualDelay::new(residual_channels, max_samples, capacity),
        };
        assert(r@ =~= AdapterModel::fresh(
            max_samples as nat,
            audio_io_layout,
            layout::capacity_for(sample_rate, max_latency_seconds),
        ));
        r
    }
}

/// Loads the auxiliary inputs, the first of which is the host bus `start`, and marks those that
/// the host connected.
fn load_aux_inputs(
    busses: &mut Vec<F32BusScratch>,
    present: &mut Vec<bool>,
    inputs: &Option<Vec<AudioBusBuffers>>,
    num_inputs: i32,
    start: usize,
    num_samples: usize,
)
    requires
        old(present)@.len() == old(busses)@.len(),
        start <= 1,
        forall|b: int, c: int|
            #![trigger old(busses)@[b]@[c]]
            0 <= b < old(busses)@.len() && 0 <= c < old(busses)@[b]@.len() ==> old(
                busses,
            )@[b]@[c].len() >= num_samples,
        forall|b: int|
            0 <= b < old(busses)@.len() ==> (#[trigger] host::connected_bus(
                host::busses_model(*inputs),
                num_inputs as int,
                b + start,
            ) matches Some(bus) ==> bus.holds(old(busses)@[b]@.len(), num_samples as nat)),
    ensures
        list_model(final(busses)@) == Seq::new(
            old(busses)@.len(),
            |b: int|
                filled(
                    old(busses)@[b]@,
                    host::connected_bus(
                        host::busses_model(*inputs),
                        num_inputs as int,
                        b + start,
                    ),
                    num_samples as nat,
                ),
        ),
        final(present)@ == Seq::new(
            old(busses)@.len(),
            |b: int|
                host::connected_bus(
                    host::busses_model(*inputs),
                    num_inputs as int,
                    b + start,
                ) is Some,
        ),
{
    let ghost before = busses@;
    let ghost table = host::busses_model(*inputs);
    let mut index: usize = 0;
    while index < busses.len()
        invariant
            index <= busses@.len(),
            busses@.len() == before.len(),
            present@.len() == before.len(),
            start <= 1,
            table == host::busses_model(*inputs),
            forall|b: int, c: int|
                #![trigger before[b]@[c]]
                0 <= b < before.len() && 0 <= c < before[b]@.len() ==> before[b]@[c].len()
                    >= num_samples,
            forall|b: int|
                0 <= b < before.len() ==> (#[trigger] host::connected_bus(
                    table,
                    num_inputs as int,
                    b + start,
                ) matches Some(bus) ==> bus.holds(before[b]@.len(), num_samples as nat)),
            forall|b: int| index <= b < before.len() ==> #[trigger] busses@[b] == before[b],
            forall|b: int|
                0 <= b < index ==> (#[trigger] busses@[b])@ == filled(
                    before[b]@,
                    host::connected_bus(table, num_inputs as int, b + start),
                    num_samples as nat,
                ),
            forall|b: int|
                0 <= b < index ==> #[trigger] present@[b] == (host::connected_bus(
                    table,
                    num_inputs as int,
                    b + start,
                ) is Some),
        decreases busses@.len() - index,
    {
        match host_bus(inputs, num_inputs, index + start) {
            Some(bus) => {
                busses[index].load_f64(bus, num_samples);
                present[index] = true;
            },
            None => {
                busses[index].clear(num_samples);
                present[index] = false;
            },
        }
        index += 1;
    }
    assert(list_model(busses@) =~= Seq::new(
        before.len(),
        |b: int|
            filled(
                before[b]@,
                host::connected_bus(table, num_inputs as int, b + start),
                num_samples as nat,
            ),
    ));
}

/// Silences the auxiliary outputs, the first of which is the host bus `start`, and marks those
/// that the host connected.
fn clear_aux_outputs(
    busses: &mut Vec<F32BusScratch>,
    present: &mut Vec<bool>,
    outputs: &Option<Vec<AudioBusBuffers>>,
    num_outputs: i32,
    start: usize,
    num_samples: usize,
)
    requires
        old(present)@.len() == old(busses)@.len(),
        start <= 1,
        forall|b: int, c: int|
            #![trigger old(busses)@[b]@[c]]
            0 <= b < old(busses)@.len() && 0 <= c < old(busses)@[b]@.len() ==> old(
                busses,
            )@[b]@[c].len() >= num_samples,
    ensures
        list_model(final(busses)@) == Seq::new(
            old(busses)@.len(),
            |b: int| scratch::cleared(old(busses)@[b]@, num_samples as nat, 0u32),
        ),
        final(present)@ == Seq::new(
            old(busses)@.len(),
            |b: int|
                host::connected_bus(
                    host::busses_model(*outputs),
                    num_outputs as int,
                    b + start,
                ) is Some,
        ),
{
    let ghost before = busses@;
    let ghost table = host::busses_model(*outputs);
    let mut index: usize = 0;
    while index < busses.len()
        invariant
            index <= busses@.len(),
            busses@.len() == before.len(),
            present@.len() == before.len(),
            start <= 1,
            table == host::busses_model(*outputs),
            forall|b: int, c: int|
                #![trigger before[b]@[c]]
                0 <= b < before.len() && 0 <= c < before[b]@.len() ==> before[b]@[c].len()
                    >= num_samples,
            forall|b: int| index <= b < before.len() ==> #[trigger] busses@[b] == before[b],
            forall|b: int|
                0 <= b < index ==> (#[trigger] busses@[b])@ == scratch::cleared(
                    before[b]@,
                    num_samples as nat,
                    0u32,
                ),
            forall|b: int|
                0 <= b < index ==> #[trigger] present@[b] == (host::connected_bus(
                    table,
                    num_outputs as int,
                    b + start,
                ) is Some),
        decreases busses@.len() - index,
    {
        present[index] = host_bus(outputs, num_outputs, index + start).is_some();
        busses[index].clear(num_samples);
        index += 1;
    }
    assert(list_model(busses@) =~= Seq::new(
        before.len(),
        |b: int| scratch::cleared(before[b]@, num_samples as nat, 0u32),
    ));
}

impl F64BufferAdapter {
    /// Takes in a block of `num_samples` samples before the plugin processes it. The plugin
    /// reports a latency of `latency_samples` samples.
    pub fn prepare(&mut self, data: &ProcessData, num_samples: usize, latency_samples: u32)
        requires
            old(self).well_formed(),
            old(self)@.fits(num_samples as nat),
            old(self)@.can_read(data@, num_samples as nat),
        ensures
            final(self).well_formed(),
            final(self)@ == old(self)@.prepared(
                data@,
                num_samples as nat,
                latency_samples as nat,
            ),
    {
        let ghost before = self@;
        let ghost target = before.prepared(data@, num_samples as nat, latency_samples as nat);
        let has_main_input = self.main_input.is_some();
        let has_main_output = self.main_output.is_some();
        let aux_input_start: usize = if has_main_input {
            1
        } else {
            0
        };
        let aux_output_start: usize = if has_main_output {
            1
        } else {
            0
        };
        let main_host_input = if has_main_input {
            host_bus(&data.inputs, data.num_inputs, 0)
        } else {
            None
        };
        self.main_input_present = main_host_input.is_some();
        match &mut self.main_input {
            Some(scratch) => match main_host_input {
                Some(bus) => {
                    scratch.load_f64(bus, num_samples);
                },
                None => {
                    scratch.clear(num_samples);
                },
            },
            None => {},
        }
        assert(bus_model(self.main_input) == target.main_input);
        self.main_output_present = has_main_output && host_bus(
            &data.outputs,
            data.num_outputs,
            0,
        ).is_some();
        match &mut self.main_output {
            Some(scratch) => {
                scratch.clear(num_samples);
            },
            None => {},
        }
        assert(bus_model(self.main_output) == target.main_output);
        proof {
            assert forall|b: int, c: int|
                #![trigger self.aux_inputs@[b]@[c]]
                0 <= b < self.aux_inputs@.len() && 0 <= c < self.aux_inputs@[b]@.len() implies
                self.aux_inputs@[b]@[c].len() >= num_samples by {
                assert(before.aux_inputs[b] == self.aux_inputs@[b]@);
            }
            assert forall|b: int| 0 <= b < self.aux_inputs@.len() implies (
            #[trigger] host::connected_bus(
                host::busses_model(data.inputs),
                data.num_inputs as int,
                b + aux_input_start,
            ) matches Some(bus) ==> bus.holds(self.aux_inputs@[b]@.len(), num_samples as nat)) by {
                assert(before.aux_inputs[b] == self.aux_inputs@[b]@);
                assert(before.host_aux_input(data@, b) == host::connected_bus(
                    host::busses_model(data.inputs),
                    data.num_inputs as int,
                    b + aux_input_start,
                ));
            }
            assert forall|b: int, c: int|
                #![trigger self.aux_outputs@[b]@[c]]
                0 <= b < self.aux_outputs@.len() && 0 <= c < self.aux_outputs@[b]@.len() implies
                self.aux_outputs@[b]@[c].len() >= num_samples by {
                assert(before.aux_outputs[b] == self.aux_outputs@[b]@);
            }
        }
        load_aux_inputs(
            &mut self.aux_inputs,
            &mut self.aux_inputs_present,
            &data.inputs,
            data.num_inputs,
            aux_input_start,
            num_samples,
        );
        clear_aux_outputs(
            &mut self.aux_outputs,
            &mut self.aux_outputs_present,
            &data.outputs,
            data.num_outputs,
            aux_output_start,
            num_samples,
        );
        self.residual_delay.prepare(
            self.main_input.as_ref(),
            main_host_input,
            num_samples,
            latency_samples as usize,
        );
        proof {
            assert(self@ =~= target);
            lemma_prepared_valid(before, data@, num_samples as nat, latency_samples as nat);
        }
    }
}

/// Taking in a block keeps an adapter valid.
pub proof fn lemma_prepared_valid(
    model: AdapterModel,
    data: host::DataModel,
    num_samples: nat,
    latency: nat,
)
    requires
        model.valid(),
    ensures
        model.prepared(data, num_samples, latency).valid(),
{
}

impl F64BufferAdapter {
    /// Writes a block of `num_samples` samples back to the host after the plugin processed it.
    pub fn write_back(&self, data: &mut ProcessData, num_samples: usize)
        requires
            self.well_formed(),
            self@.can_write(old(data)@, num_samples as nat),
        ensures
            final(data)@ == self@.written_back(old(data)@, num_samples as nat),
    {
        let ghost before = data@;
        let ghost n = num_samples as nat;
        let num_outputs = data.num_outputs;
        let has_main_output = self.main_output.is_some();
        let aux_output_start: usize = if has_main_output {
            1
        } else {
            0
        };
        let delayed = self.residual_delay.delayed();
        match &self.main_output {
            Some(scratch) => {
                match host_bus_mut(&mut data.outputs, num_outputs, 0) {
                    Some(bus) => {
                        scratch.store_f64(bus, num_samples, Some(delayed));
                    },
                    None => {},
                }
            },
            None => {},
        }
        let mut index: usize = 0;
        while index < self.aux_outputs.len()
            invariant
                self.well_formed(),
                index <= self.aux_outputs@.len(),
                n == num_samples,
                self@.can_write(before, n),
                aux_output_start == self@.aux_output_start(),
                num_outputs == before.num_outputs,
                data@.num_outputs == before.num_outputs,
                data@.num_inputs == before.num_inputs,
                data@.inputs == before.inputs,
                data@.outputs is Some <==> before.outputs is Some,
                data@.outputs matches Some(busses) ==> busses.len() == before.outputs->0.len(),
                data@.outputs matches Some(busses) ==> forall|j: int|
                    0 <= j < busses.len() ==> #[trigger] busses[j] == if j < index
                        + aux_output_start {
                        self@.written_bus(before, before.outputs->0[j], j, n)
                    } else {
                        before.outputs->0[j]
                    },
            decreases self.aux_outputs@.len() - index,
        {
            let ghost j = index + aux_output_start;
            let ghost held = data@;
            proof {
                assert(self@.aux_outputs[index as int] == self.aux_outputs@[index as int]@);
                assert(self@.host_aux_output(before, index as int) == host::connected_bus(
                    before.outputs,
                    before.num_outputs,
                    j,
                ));
                if before.outputs is Some && j < before.outputs->0.len() {
                    assert(held.outputs->0[j] == before.outputs->0[j]);
                }
            }
            match host_bus_mut(&mut data.outputs, num_outputs, index + aux_output_start) {
                Some(bus) => {
                    self.aux_outputs[index].store_f64(bus, num_samples, None);
                },
                None => {},
            }
            index += 1;
        }
        proof {
            if before.outputs is Some {
                assert(data@.outputs->0 =~= self@.written_back(before, n).outputs->0);
            }
            assert(data@ =~= self@.written_back(before, n));
        }
    }
}

impl F64BufferAdapter {
    /// The 32-bit channels of the main input, if the host connected it in the current block.
    pub fn main_input_channel_pointers(&mut self) -> (r: Option<&mut F32BusScratch>)
        requires
            old(self).well_formed(),
        ensures
            r is Some <==> old(self)@.main_input_present,
            match r {
                Some(channels) => {
                    &&& old(self)@.main_input == Some(channels@)
                    &&& final(self)@ == (AdapterModel {
                        main_input: Some(final(channels)@),
                        ..old(self)@
                    })
                    &&& final(channels)@.len() == channels@.len() && scratch::uniform(
                        final(channels)@,
                        old(self)@.max_samples,
                    ) ==> final(self).well_formed()
                },
                None => *final(self) == *old(self),
            },
    {
        if self.main_input_present {
            self.main_input.as_mut()
        } else {
            None
        }
    }

    /// The 32-bit channels of the main output, if the host connected it in the current block.
    pub fn main_output_channel_pointers(&mut self) -> (r: Option<&mut F32BusScratch>)
        requires
            old(self).well_formed(),
        ensures
            r is Some <==> old(self)@.main_output_present,
            match r {
                Some(channels) => {
                    &&& old(self)@.main_output == Some(channels@)
                    &&& final(self)@ == (AdapterModel {
                        main_output: Some(final(channels)@),
                        ..old(self)@
                    })
                    &&& final(channels)@.len() == channels@.len() && scratch::uniform(
                        final(channels)@,
                        old(self)@.max_samples,
                    ) ==> final(self).well_formed()
                },
                None => *final(self) == *old(self),
            },
    {
        if self.main_output_present {
            self.main_output.as_mut()
        } else {
            None
        }
    }

    /// The 32-bit channels of the auxiliary input `index`, if the host connected it in the current
    /// block.
    pub fn aux_input_channel_pointers(&mut self, index: usize) -> (r: Option<&mut F32BusScratch>)
        requires
            old(self).well_formed(),
            index < old(self)@.aux_inputs.len(),
        ensures
            r is Some <==> old(self)@.aux_inputs_present[index as int],
            match r {
                Some(channels) => {
                    &&& old(self)@.aux_inputs[index as int] == channels@
                    &&& final(self)@ =~= (AdapterModel {
                        aux_inputs: old(self)@.aux_inputs.update(index as int, final(channels)@),
                        ..old(self)@
                    })
                    &&& final(channels)@.len() == channels@.len() && scratch::uniform(
                        final(channels)@,
                        old(self)@.max_samples,
                    ) ==> final(self).well_formed()
                },
                None => *final(self) == *old(self),
            },
    {
        if self.aux_inputs_present[index] {
            proof {
                let before = self@;
                let i = index as int;
                lemma_list_updated(self.aux_inputs@, i);
                assert forall|channels: Seq<Seq<u32>>| #[trigger]
                    scratch::uniform(channels, before.max_samples) implies (AdapterModel {
                    aux_inputs: before.aux_inputs.update(i, channels),
                    ..before
                }).valid() by {
                }
            }
            Some(&mut self.aux_inputs[index])
        } else {
            None
        }
    }

    /// The 32-bit channels of the auxiliary output `index`, if the host connected it in the current
    /// block.
    pub fn aux_output_channel_pointers(&mut self, index: usize) -> (r: Option<&mut F32BusScratch>)
        requires
            old(self).well_formed(),
            index < old(self)@.aux_outputs.len(),
        ensures
            r is Some <==> old(self)@.aux_outputs_present[index as int],
            match r {
                Some(channels) => {
                    &&& old(self)@.aux_outputs[index as int] == channels@
                    &&& final(self)@ =~= (AdapterModel {
                        aux_outputs: old(self)@.aux_outputs.update(index as int, final(channels)@),
                        ..old(self)@
                    })
                    &&& final(channels)@.len() == channels@.len() && scratch::uniform(
                        final(channels)@,
                        old(self)@.max_samples,
                    ) ==> final(self).well_formed()
                },
                None => *final(self) == *old(self),
            },
    {
        if self.aux_outputs_present[index] {
            proof {
                let before = self@;
                let i = index as int;
                lemma_list_updated(self.aux_outputs@, i);
                assert forall|channels: Seq<Seq<u32>>| #[trigger]
                    scratch::uniform(channels, before.max_samples) implies (AdapterModel {
                    aux_outputs: before.aux_outputs.update(i, channels),
                    ..before
                }).valid() by {
                }
            }
            Some(&mut self.aux_outputs[index])
        } else {
            None
        }
    }

    /// The longest block that the adapter takes.
    pub fn max_samples(&self) -> (r: usize)
        ensures
            r == self@.max_samples,
    {
        self.max_samples
    }

    /// How many samples the residual delay holds. It covers every latency below that.
    pub fn residual_capacity(&self) -> (r: usize)
        ensures
            r == self@.residual.capacity,
    {
        self.residual_delay.capacity()
    }
}

/// Replacing a bus of a list replaces what the list holds there.
proof fn lemma_list_updated(busses: Seq<F32BusScratch>, i: int)
    requires
        0 <= i < busses.len(),
    ensures
        forall|bus: F32BusScratch|
            list_model(#[trigger] busses.update(i, bus)) == list_model(busses).update(i, bus@),
{
    assert forall|bus: F32BusScratch|
        list_model(#[trigger] busses.update(i, bus)) == list_model(busses).update(i, bus@) by {
        assert(list_model(busses.update(i, bus)) =~= list_model(busses).update(i, bus@));
    }
}

} // verus!
