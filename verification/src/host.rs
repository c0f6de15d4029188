//! The buffers that a host hands to a plugin for one block.

use vstd::prelude::*;

verus! {

/// The channels of one host bus.
///
/// `buffers` is `None` where the host passed no channel table, and an entry of it is `None` where
/// the host passed no buffer for that channel. A sample is the bit pattern of a 64-bit sample.
pub struct AudioBusBuffers {
    pub num_channels: i32,
    pub buffers: Option<Vec<Option<Vec<u64>>>>,
}

/// The buses of one block.
///
/// `inputs` and `outputs` are `None` where the host passed no bus table.
pub struct ProcessData {
    pub num_inputs: i32,
    pub num_outputs: i32,
    pub inputs: Option<Vec<AudioBusBuffers>>,
    pub outputs: Option<Vec<AudioBusBuffers>>,
}

/// What a host bus holds.
#[verifier::ext_equal]
pub struct BusModel {
    pub num_channels: int,
    pub buffers: Option<Seq<Option<Seq<u64>>>>,
}

/// What the buses of one block hold.
#[verifier::ext_equal]
pub struct DataModel {
    pub num_inputs: int,
    pub num_outputs: int,
    pub inputs: Option<Seq<BusModel>>,
    pub outputs: Option<Seq<BusModel>>,
}

/// What a channel table holds.
pub open spec fn table_model(table: Seq<Option<Vec<u64>>>) -> Seq<Option<Seq<u64>>> {
    Seq::new(
        table.len(),
        |c: int|
            match table[c] {
                Some(samples) => Some(samples@),
                None => None,
            },
    )
}

/// What a bus table holds.
pub open spec fn busses_model(busses: Option<Vec<AudioBusBuffers>>) -> Option<Seq<BusModel>> {
    match busses {
        Some(busses) => Some(Seq::new(busses@.len(), |b: int| busses@[b]@)),
        None => None,
    }
}

impl View for AudioBusBuffers {
    type V = BusModel;

    open spec fn view(&self) -> BusModel {
        BusModel {
            num_channels: self.num_channels as int,
            buffers: match self.buffers {
                Some(table) => Some(table_model(table@)),
                None => None,
            },
        }
    }
}

impl View for ProcessData {
    type V = DataModel;

    open spec fn view(&self) -> DataModel {
        DataModel {
            num_inputs: self.num_inputs as int,
            num_outputs: self.num_outputs as int,
            inputs: busses_model(self.inputs),
            outputs: busses_model(self.outputs),
        }
    }
}

impl BusModel {
    /// Whether the bus has a channel table and at least one channel.
    pub open spec fn connected(self) -> bool {
        self.buffers is Some && self.num_channels > 0
    }

    /// Whether the host passed a buffer for the channel `c`.
    pub open spec fn has_channel(self, c: int) -> bool {
        &&& self.buffers matches Some(table)
        &&& 0 <= c < self.num_channels
        &&& c < table.len()
        &&& table[c] is Some
    }

    /// The buffer of a channel that the host passed one for.
    pub open spec fn channel(self, c: int) -> Seq<u64>
        recommends
            self.has_channel(c),
    {
        self.buffers->0[c]->0
    }

    /// Whether each of the first `width` channels that the host passed a buffer for holds
    /// `num_samples` samples.
    pub open spec fn holds(self, width: nat, num_samples: nat) -> bool {
        forall|c: int|
            0 <= c < width && #[trigger] self.has_channel(c) ==> self.channel(c).len()
                >= num_samples
    }
}

/// The bus `index` of a bus table, if the table has it and it is connected.
pub open spec fn connected_bus(
    busses: Option<Seq<BusModel>>,
    num_busses: int,
    index: int,
) -> Option<BusModel> {
    match busses {
        Some(busses) => {
            if 0 <= index < num_busses && index < busses.len() && busses[index].connected() {
                Some(busses[index])
            } else {
                None
            }
        },
        None => None,
    }
}

impl AudioBusBuffers {
    /// Whether the bus has a channel table and at least one channel.
    pub fn is_connected(&self) -> (r: bool)
        ensures
            r == self@.connected(),
    {
        self.buffers.is_some() && self.num_channels > 0
    }

    /// The buffer of the channel `c`, if the host passed one.
    pub fn channel_buffer(&self, c: usize) -> (r: Option<&Vec<u64>>)
        ensures
            r is Some <==> self@.has_channel(c as int),
            r matches Some(samples) ==> samples@ == self@.channel(c as int),
    {
        if self.num_channels <= 0 || c >= self.num_channels as usize {
            return None;
        }
        match &self.buffers {
            Some(table) => {
                if c >= table.len() {
                    return None;
                }
                match &table[c] {
                    Some(samples) => Some(samples),
                    None => None,
                }
            },
            None => None,
        }
    }
}

/// The bus `index` of a bus table, if the table has it and it is connected.
pub fn host_bus(
    busses: &Option<Vec<AudioBusBuffers>>,
    num_busses: i32,
    index: usize,
) -> (r: Option<&AudioBusBuffers>)
    ensures
        r is Some <==> connected_bus(
            busses_model(*busses),
            num_busses as int,
            index as int,
        ) is Some,
        r matches Some(bus) ==> connected_bus(
            busses_model(*busses),
            num_busses as int,
            index as int,
        ) == Some(bus@),
{
    if num_busses <= 0 || index >= num_busses as usize {
        return None;
    }
    match busses {
        Some(busses) => {
            if index < busses.len() && busses[index].is_connected() {
                Some(&busses[index])
            } else {
                None
            }
        },
        None => None,
    }
}

/// The bus `index` of a bus table, to be changed in place, if the table has it and it is connected.
pub fn host_bus_mut(
    busses: &mut Option<Vec<AudioBusBuffers>>,
    num_busses: i32,
    index: usize,
) -> (r: Option<&mut AudioBusBuffers>)
    ensures
        r is Some <==> connected_bus(
            busses_model(*old(busses)),
            num_busses as int,
            index as int,
        ) is Some,
        match r {
            Some(bus) => {
                &&& connected_bus(
                    busses_model(*old(busses)),
                    num_busses as int,
                    index as int,
                ) == Some(bus@)
                &&& busses_model(*final(busses)) is Some
                &&& busses_model(*final(busses))->0 =~= busses_model(*old(busses))->0.update(
                    index as int,
                    final(bus)@,
                )
            },
            None => busses_model(*final(busses)) == busses_model(*old(busses)),
        },
{
    if num_busses <= 0 || index >= num_busses as usize {
        return None;
    }
    match busses {
        Some(table) => {
            if index < table.len() && table[index].is_connected() {
                let bus = &mut table[index];
                Some(bus)
            } else {
                None
            }
        },
        None => None,
    }
}

} // verus!
