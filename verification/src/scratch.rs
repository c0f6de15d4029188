//! The 32-bit channels that a plugin processes in place of one host bus.

use vstd::prelude::*;
use crate::host;
use crate::host::AudioBusBuffers;
use crate::sample;
use crate::sample::{quantize, sum, widen};

verus! {

/// Preallocated 32-bit channels that stand in for one host bus.
pub struct F32BusScratch {
    channels: Vec<Vec<u32>>,
}

/// What a list of channels holds.
pub open spec fn channels_model<T>(channels: Seq<Vec<T>>) -> Seq<Seq<T>> {
    Seq::new(channels.len(), |c: int| channels[c]@)
}

/// Whether every channel holds exactly `len` samples.
pub open spec fn uniform<T>(channels: Seq<Seq<T>>, len: nat) -> bool {
    forall|c: int| 0 <= c < channels.len() ==> (#[trigger] channels[c]).len() == len
}

/// `num_channels` channels of `len` samples of silence.
pub open spec fn silence<T>(num_channels: nat, len: nat, zero: T) -> Seq<Seq<T>> {
    Seq::new(num_channels, |c: int| Seq::new(len, |i: int| zero))
}

/// The channels with their first `num_samples` samples silenced.
pub open spec fn cleared<T>(channels: Seq<Seq<T>>, num_samples: nat, zero: T) -> Seq<Seq<T>> {
    Seq::new(
        channels.len(),
        |c: int|
            Seq::new(
                channels[c].len(),
                |i: int|
                    if i < num_samples {
                        zero
                    } else {
                        channels[c][i]
                    },
            ),
    )
}

/// The channels after a block of `num_samples` samples was loaded from a host bus: each sample is
/// the quantized host sample, and silent where the host has no buffer for the channel.
pub open spec fn loaded(
    channels: Seq<Seq<u32>>,
    bus: host::BusModel,
    num_samples: nat,
) -> Seq<Seq<u32>> {
    Seq::new(
        channels.len(),
        |c: int|
            Seq::new(
                channels[c].len(),
                |i: int|
                    if i >= num_samples {
                        channels[c][i]
                    } else if bus.has_channel(c) {
                        sample::quantized(bus.channel(c)[i])
                    } else {
                        0
                    },
            ),
    )
}

/// The residual to add to the sample `i` of the channel `c`.
pub open spec fn residual_at(residual: Option<Seq<Seq<u64>>>, c: int, i: int) -> u64 {
    match residual {
        Some(channels) => {
            if c < channels.len() {
                channels[c][i]
            } else {
                0
            }
        },
        None => 0,
    }
}

/// Whether there is room for `num_samples` samples wherever a sample is stored: in the channel, in
/// its host buffer and in its residual.
pub open spec fn can_store(
    channels: Seq<Seq<u32>>,
    bus: host::BusModel,
    num_samples: nat,
    residual: Option<Seq<Seq<u64>>>,
) -> bool {
    forall|c: int|
        0 <= c < channels.len() && #[trigger] bus.has_channel(c) ==> {
            &&& channels[c].len() >= num_samples
            &&& bus.channel(c).len() >= num_samples
            &&& residual matches Some(lines) ==> c < lines.len() ==> lines[c].len() >= num_samples
        }
}

/// A host bus after a block of `num_samples` samples was stored to it: each sample is the widened
/// sample of the channel plus its residual.
pub open spec fn stored(
    channels: Seq<Seq<u32>>,
    bus: host::BusModel,
    num_samples: nat,
    residual: Option<Seq<Seq<u64>>>,
) -> host::BusModel {
    host::BusModel {
        num_channels: bus.num_channels,
        buffers: match bus.buffers {
            Some(table) => Some(
                Seq::new(
                    table.len(),
                    |c: int|
                        if bus.has_channel(c) && c < channels.len() {
                            Some(
                                Seq::new(
                                    bus.channel(c).len(),
                                    |i: int|
                                        if i < num_samples {
                                            sample::total(
                                                sample::widened(channels[c][i]),
                                                residual_at(residual, c, i),
                                            )
                                        } else {
                                            bus.channel(c)[i]
                                        },
                                ),
                            )
                        } else {
                            table[c]
                        },
                ),
            ),
            None => None,
        },
    }
}

impl View for F32BusScratch {
    type V = Seq<Seq<u32>>;

    closed spec fn view(&self) -> Seq<Seq<u32>> {
        channels_model(self.channels@)
    }
}

/// `num_channels` silent channels of `len` samples.
pub fn silent_channels<T: Copy>(num_channels: usize, len: usize, zero: T) -> (r: Vec<Vec<T>>)
    ensures
        channels_model(r@) == silence(num_channels as nat, len as nat, zero),
{
    let mut channels: Vec<Vec<T>> = Vec::with_capacity(num_channels);
    let mut c: usize = 0;
    while c < num_channels
        invariant
            c <= num_channels,
            channels@.len() == c,
            forall|k: int|
                0 <= k < c ==> (#[trigger] channels@[k])@ =~= Seq::new(
                    len as nat,
                    |i: int| zero,
                ),
        decreases num_channels - c,
    {
        let mut channel: Vec<T> = Vec::with_capacity(len);
        let mut i: usize = 0;
        while i < len
            invariant
                i <= len,
                channel@ =~= Seq::new(i as nat, |k: int| zero),
            decreases len - i,
        {
            channel.push(zero);
            i += 1;
        }
        channels.push(channel);
        c += 1;
    }
    assert(channels_model(channels@) =~~= silence(num_channels as nat, len as nat, zero));
    channels
}

/// Silences the first `num_samples` samples of every channel.
pub fn clear_channels<T: Copy>(channels: &mut Vec<Vec<T>>, num_samples: usize, zero: T)
    requires
        forall|c: int|
            0 <= c < old(channels)@.len() ==> (#[trigger] old(channels)@[c])@.len() >= num_samples,
    ensures
        channels_model(final(channels)@) == cleared(
            channels_model(old(channels)@),
            num_samples as nat,
            zero,
        ),
{
    let ghost before = channels_model(channels@);
    let mut c: usize = 0;
    while c < channels.len()
        invariant
            c <= channels@.len(),
            channels@.len() == before.len(),
            forall|k: int| 0 <= k < before.len() ==> (#[trigger] before[k]).len() >= num_samples,
            forall|k: int|
                0 <= k < c ==> (#[trigger] channels@[k])@ == cleared(
                    before,
                    num_samples as nat,
                    zero,
                )[k],
            forall|k: int| c <= k < before.len() ==> (#[trigger] channels@[k])@ == before[k],
        decreases channels@.len() - c,
    {
        let mut i: usize = 0;
        let ghost done = channels@;
        while i < num_samples
            invariant
                i <= num_samples,
                c < channels@.len() == done.len(),
                done.len() == before.len(),
                before[c as int].len() >= num_samples,
                channels@[c as int]@.len() == before[c as int].len(),
                forall|k: int|
                    0 <= k < done.len() && k != c ==> (#[trigger] channels@[k]) == done[k],
                forall|k: int|
                    0 <= k < before[c as int].len() ==> #[trigger] channels@[c as int]@[k] == if k
                        < i {
                        zero
                    } else {
                        before[c as int][k]
                    },
            decreases num_samples - i,
        {
            channels[c][i] = zero;
            i += 1;
        }
        assert(channels@[c as int]@ =~= cleared(before, num_samples as nat, zero)[c as int]);
        c += 1;
    }
    assert(channels_model(channels@) =~= cleared(before, num_samples as nat, zero));
}

impl F32BusScratch {
    /// Silent channels of `max_samples` samples.
    pub fn new(num_channels: usize, max_samples: usize) -> (r: Self)
        ensures
            r@ == silence(num_channels as nat, max_samples as nat, 0u32),
    {
        F32BusScratch { channels: silent_channels(num_channels, max_samples, 0u32) }
    }

    /// Silences the first `num_samples` samples of every channel.
    pub fn clear(&mut self, num_samples: usize)
        requires
            forall|c: int|
                0 <= c < old(self)@.len() ==> (#[trigger] old(self)@[c]).len() >= num_samples,
        ensures
            final(self)@ == cleared(old(self)@, num_samples as nat, 0u32),
    {
        proof {
            assert forall|c: int| 0 <= c < self.channels@.len() implies (
            #[trigger] self.channels@[c])@.len() >= num_samples by {
                assert(self@[c] == self.channels@[c]@);
            }
        }
        clear_channels(&mut self.channels, num_samples, 0u32);
    }

    /// Loads a block of `num_samples` samples from a host bus.
    pub fn load_f64(&mut self, bus: &AudioBusBuffers, num_samples: usize)
        requires
            forall|c: int|
                0 <= c < old(self)@.len() ==> (#[trigger] old(self)@[c]).len() >= num_samples,
            bus@.holds(old(self)@.len(), num_samples as nat),
        ensures
            final(self)@ == loaded(old(self)@, bus@, num_samples as nat),
    {
        let ghost before = self@;
        self.clear(num_samples);
        let ghost silent = cleared(before, num_samples as nat, 0u32);
        let ghost target = loaded(before, bus@, num_samples as nat);
        proof {
            assert(self@.len() == self.channels@.len());
            assert forall|k: int| 0 <= k < before.len() implies (#[trigger] self.channels@[k])@
                == silent[k] by {
                assert(self@[k] == self.channels@[k]@);
            }
        }
        let mut c: usize = 0;
        while c < self.channels.len()
            invariant
                c <= self.channels@.len(),
                self.channels@.len() == before.len(),
                forall|k: int|
                    0 <= k < before.len() ==> (#[trigger] before[k]).len() >= num_samples,
                bus@.holds(before.len(), num_samples as nat),
                silent == cleared(before, num_samples as nat, 0u32),
                target == loaded(before, bus@, num_samples as nat),
                forall|k: int| 0 <= k < c ==> (#[trigger] self.channels@[k])@ == target[k],
                forall|k: int|
                    c <= k < before.len() ==> (#[trigger] self.channels@[k])@ == silent[k],
            decreases self.channels@.len() - c,
        {
            match bus.channel_buffer(c) {
                Some(samples) => {
                    let ghost done = self.channels@;
                    let mut i: usize = 0;
                    while i < num_samples
                        invariant
                            i <= num_samples,
                            c < self.channels@.len() == done.len(),
                            done.len() == before.len(),
                            before[c as int].len() >= num_samples,
                            samples@.len() >= num_samples,
                            self.channels@[c as int]@.len() == before[c as int].len(),
                            forall|k: int|
                                0 <= k < done.len() && k != c ==> (#[trigger] self.channels@[k])
                                    == done[k],
                            forall|k: int|
                                0 <= k < i ==> #[trigger] self.channels@[c as int]@[k]
                                    == sample::quantized(samples@[k]),
                            forall|k: int|
                                num_samples <= k < before[c as int].len()
                                    ==> #[trigger] self.channels@[c as int]@[k]
                                    == before[c as int][k],
                        decreases num_samples - i,
                    {
                        self.channels[c][i] = quantize(samples[i]);
                        i += 1;
                    }
                },
                None => {},
            }
            assert(self.channels@[c as int]@ =~= target[c as int]);
            c += 1;
        }
        assert(self@ =~= target);
    }

    /// Stores a block of `num_samples` samples to a host bus, with the residual added.
    pub fn store_f64(
        &self,
        bus: &mut AudioBusBuffers,
        num_samples: usize,
        residual: Option<&Vec<Vec<u64>>>,
    )
        requires
            can_store(
                self@,
                old(bus)@,
                num_samples as nat,
                match residual {
                    Some(channels) => Some(channels_model(channels@)),
                    None => None,
                },
            ),
        ensures
            final(bus)@ == stored(
                self@,
                old(bus)@,
                num_samples as nat,
                match residual {
                    Some(channels) => Some(channels_model(channels@)),
                    None => None,
                },
            ),
    {
        let ghost before = bus@;
        let ghost added = match residual {
            Some(channels) => Some(channels_model(channels@)),
            None => None,
        };
        let ghost target = stored(self@, before, num_samples as nat, added);
        let num_channels: usize = if bus.num_channels > 0 {
            bus.num_channels as usize
        } else {
            0
        };
        match &mut bus.buffers {
            Some(table) => {
                let mut c: usize = 0;
                while c < num_channels && c < table.len() && c < self.channels.len()
                    invariant
                        c <= table@.len(),
                        c <= num_channels,
                        c <= self.channels@.len(),
                        before.buffers is Some,
                        table@.len() == before.buffers->0.len(),
                        num_channels == if before.num_channels > 0 {
                            before.num_channels
                        } else {
                            0
                        },
                        can_store(self@, before, num_samples as nat, added),
                        added == match residual {
                            Some(channels) => Some(channels_model(channels@)),
                            None => None,
                        },
                        target == stored(self@, before, num_samples as nat, added),
                        forall|k: int|
                            0 <= k < c ==> #[trigger] host::table_model(table@)[k]
                                == target.buffers->0[k],
                        forall|k: int|
                            c <= k < table@.len() ==> #[trigger] host::table_model(table@)[k]
                                == before.buffers->0[k],
                    decreases table@.len() - c,
                {
                    let ghost done = table@;
                    proof {
                        assert(host::table_model(done)[c as int] == before.buffers->0[c as int]);
                        assert(before.has_channel(c as int) <==> done[c as int] is Some);
                        assert(self@[c as int] == self.channels@[c as int]@);
                    }
                    let line: Option<&Vec<u64>> = match residual {
                        Some(channels) => if c < channels.len() {
                            Some(&channels[c])
                        } else {
                            None
                        },
                        None => None,
                    };
                    match &mut table[c] {
                        Some(samples) => {
                            store_channel(&self.channels[c], samples, num_samples, line);
                        },
                        None => {},
                    }
                    proof {
                        assert forall|k: int| 0 <= k < table@.len() && k != c implies
                            #[trigger] host::table_model(table@)[k]
                                == host::table_model(done)[k] by {
                            assert(table@[k] == done[k]);
                        }
                        if done[c as int] is Some {
                            assert(table@[c as int]->0@ =~= target.buffers->0[c as int]->0);
                        }
                        assert(host::table_model(table@)[c as int] == target.buffers->0[c as int]);
                    }
                    c += 1;
                }
                assert(host::table_model(table@) =~= target.buffers->0);
            },
            None => {},
        }
        assert(bus@ =~= target);
    }
}

impl F32BusScratch {
    /// How many channels there are.
    pub fn num_channels(&self) -> (r: usize)
        ensures
            r == self@.len(),
    {
        self.channels.len()
    }

    /// The samples of the channel `c`.
    pub fn channel(&self, c: usize) -> (r: &[u32])
        requires
            c < self@.len(),
        ensures
            r@ == self@[c as int],
    {
        self.channels[c].as_slice()
    }

    /// The samples of the channel `c`, to be changed in place.
    pub fn channel_mut(&mut self, c: usize) -> (r: &mut [u32])
        requires
            c < old(self)@.len(),
        ensures
            r@ == old(self)@[c as int],
            final(self)@ == old(self)@.update(c as int, final(r)@),
    {
        let r = self.channels[c].as_mut_slice();
        r
    }
}

/// Stores a block of `num_samples` samples of one channel to its host buffer.
fn store_channel(
    channel: &Vec<u32>,
    samples: &mut Vec<u64>,
    num_samples: usize,
    residual: Option<&Vec<u64>>,
)
    requires
        channel@.len() >= num_samples,
        old(samples)@.len() >= num_samples,
        residual matches Some(line) ==> line@.len() >= num_samples,
    ensures
        final(samples)@ == Seq::new(
            old(samples)@.len(),
            |i: int|
                if i < num_samples {
                    sample::total(
                        sample::widened(channel@[i]),
                        match residual {
                            Some(line) => line@[i],
                            None => 0,
                        },
                    )
                } else {
                    old(samples)@[i]
                },
        ),
{
    let ghost before = samples@;
    let mut i: usize = 0;
    while i < num_samples
        invariant
            i <= num_samples,
            channel@.len() >= num_samples,
            samples@.len() == before.len() >= num_samples,
            residual matches Some(line) ==> line@.len() >= num_samples,
            forall|k: int|
                0 <= k < i ==> #[trigger] samples@[k] == sample::total(
                    sample::widened(channel@[k]),
                    match residual {
                        Some(line) => line@[k],
                        None => 0,
                    },
                ),
            forall|k: int| i <= k < before.len() ==> #[trigger] samples@[k] == before[k],
        decreases num_samples - i,
    {
        let carrier_residual: u64 = match residual {
            Some(line) => line[i],
            None => 0,
        };
        samples[i] = sum(widen(channel[i]), carrier_residual);
        i += 1;
    }
}

} // verus!
