//! The delay line that holds back what quantizing dropped until the plugin's output catches up.

use vstd::prelude::*;
use vstd::arithmetic::div_mod::*;
use crate::carrier;
use crate::carrier::residual_of;
use crate::host;
use crate::host::AudioBusBuffers;
use crate::scratch;
use crate::scratch::{clear_channels, silent_channels, F32BusScratch};

verus! {

/// A ring buffer of residuals for each channel, and the delayed residuals of the current block.
pub struct ResidualDelay {
    lines: Vec<Vec<u64>>,
    write_positions: Vec<usize>,
    delayed_block: Vec<Vec<u64>>,
    capacity: usize,
}

/// What a residual delay holds: the last `capacity` residuals of each channel, the oldest first,
/// where in its ring buffer the next one goes, and the delayed residuals of the current block.
#[verifier::ext_equal]
pub struct DelayModel {
    pub capacity: nat,
    pub histories: Seq<Seq<u64>>,
    pub positions: Seq<nat>,
    pub delayed: Seq<Seq<u64>>,
}

/// The history after `block` went in: as many of the newest residuals as before.
pub open spec fn advanced(history: Seq<u64>, block: Seq<u64>) -> Seq<u64> {
    (history + block).skip(block.len() as int)
}

/// The residual that comes out along with `block[i]`: the one that went in `latency` samples
/// earlier, or nothing where the history does not reach back that far.
pub open spec fn delayed_sample(history: Seq<u64>, block: Seq<u64>, latency: nat, i: int) -> u64 {
    if latency < history.len() {
        (history + block)[history.len() + i - latency]
    } else {
        0
    }
}

/// The position in a ring buffer that is `num_samples` further on.
pub open spec fn moved_on(position: nat, num_samples: nat, capacity: nat) -> nat {
    (position + num_samples) % capacity
}

/// The residual of the sample `i` of the channel `c`, which is 0 where the host has no buffer for
/// that channel.
pub open spec fn block_sample(
    quantized: Seq<Seq<u32>>,
    host_input: Option<host::BusModel>,
    c: int,
    i: int,
) -> u64 {
    match host_input {
        Some(bus) => {
            if bus.has_channel(c) && c < quantized.len() {
                carrier::residual(bus.channel(c)[i], quantized[c][i])
            } else {
                0
            }
        },
        None => 0,
    }
}

/// The residuals of one block of the channel `c`.
pub open spec fn block_residuals(
    quantized: Seq<Seq<u32>>,
    host_input: Option<host::BusModel>,
    c: int,
    num_samples: nat,
) -> Seq<u64> {
    Seq::new(num_samples, |i: int| block_sample(quantized, host_input, c, i))
}

impl DelayModel {
    /// A delay that nothing went into yet.
    pub open spec fn fresh(num_channels: nat, max_samples: nat, capacity: nat) -> DelayModel {
        DelayModel {
            capacity,
            histories: scratch::silence(num_channels, capacity, 0u64),
            positions: Seq::new(num_channels, |c: int| 0nat),
            delayed: scratch::silence(num_channels, max_samples, 0u64),
        }
    }

    /// The delay after a block: the residuals of each channel went in, and those that went in
    /// `latency` samples earlier came out. Without a quantized input nothing goes in or out.
    pub open spec fn prepared(
        self,
        quantized: Option<Seq<Seq<u32>>>,
        host_input: Option<host::BusModel>,
        num_samples: nat,
        latency: nat,
    ) -> DelayModel {
        DelayModel {
            capacity: self.capacity,
            histories: match quantized {
                Some(quantized) => Seq::new(
                    self.histories.len(),
                    |c: int|
                        advanced(
                            self.histories[c],
                            block_residuals(quantized, host_input, c, num_samples),
                        ),
                ),
                None => self.histories,
            },
            positions: match quantized {
                Some(quantized) => Seq::new(
                    self.positions.len(),
                    |c: int| moved_on(self.positions[c], num_samples, self.capacity),
                ),
                None => self.positions,
            },
            delayed: Seq::new(
                self.delayed.len(),
                |c: int|
                    Seq::new(
                        self.delayed[c].len(),
                        |i: int|
                            if i >= num_samples {
                                self.delayed[c][i]
                            } else {
                                match quantized {
                                    Some(quantized) => delayed_sample(
                                        self.histories[c],
                                        block_residuals(quantized, host_input, c, num_samples),
                                        latency,
                                        i,
                                    ),
                                    None => 0,
                                }
                            },
                    ),
            ),
        }
    }
}

/// What a ring buffer holds whose next sample goes to `position`, the oldest sample first.
pub open spec fn unrolled(line: Seq<u64>, position: int) -> Seq<u64> {
    line.skip(position) + line.take(position)
}

impl View for ResidualDelay {
    type V = DelayModel;

    closed spec fn view(&self) -> DelayModel {
        DelayModel {
            capacity: self.capacity as nat,
            histories: Seq::new(
                self.lines@.len(),
                |c: int| unrolled(self.lines@[c]@, self.write_positions@[c] as int),
            ),
            positions: Seq::new(
                self.write_positions@.len(),
                |c: int| self.write_positions@[c] as nat,
            ),
            delayed: scratch::channels_model(self.delayed_block@),
        }
    }
}

impl ResidualDelay {
    /// Every channel has a ring buffer of `capacity` samples with a position inside it, and room
    /// for the delayed samples of a block.
    pub closed spec fn well_formed(&self) -> bool {
        &&& 0 < self.capacity <= usize::MAX / 2
        &&& self.write_positions@.len() == self.lines@.len()
        &&& self.delayed_block@.len() == self.lines@.len()
        &&& forall|c: int|
            0 <= c < self.lines@.len() ==> (#[trigger] self.lines@[c])@.len() == self.capacity
        &&& forall|c: int|
            0 <= c < self.lines@.len() ==> (#[trigger] self.write_positions@[c]) < self.capacity
    }

    /// What well-formedness says of the model.
    pub proof fn lemma_model(&self)
        requires
            self.well_formed(),
        ensures
            self@.capacity > 0,
            self@.histories.len() == self@.delayed.len(),
            self@.histories.len() == self@.positions.len(),
            scratch::uniform(self@.histories, self@.capacity),
            forall|c: int|
                0 <= c < self@.positions.len() ==> #[trigger] self@.positions[c] < self@.capacity,
    {
    }

    /// A delay of `num_channels` channels that reaches back less than `capacity` samples.
    pub fn new(num_channels: usize, max_samples: usize, capacity: usize) -> (r: Self)
        requires
            0 < capacity <= usize::MAX / 2,
        ensures
            r.well_formed(),
            r@ == DelayModel::fresh(num_channels as nat, max_samples as nat, capacity as nat),
    {
        let lines = silent_channels(num_channels, capacity, 0u64);
        let mut write_positions: Vec<usize> = Vec::with_capacity(num_channels);
        let mut c: usize = 0;
        while c < num_channels
            invariant
                c <= num_channels,
                write_positions@ =~= Seq::new(c as nat, |k: int| 0usize),
            decreases num_channels - c,
        {
            write_positions.push(0);
            c += 1;
        }
        let delayed_block = silent_channels(num_channels, max_samples, 0u64);
        let r = ResidualDelay { lines, write_positions, delayed_block, capacity };
        proof {
            let zero = scratch::silence(num_channels as nat, capacity as nat, 0u64);
            assert(lines@.len() == num_channels) by {
                assert(scratch::channels_model(lines@).len() == num_channels);
            }
            assert(delayed_block@.len() == num_channels) by {
                assert(scratch::channels_model(delayed_block@).len() == num_channels);
            }
            assert forall|k: int| 0 <= k < num_channels implies
                (#[trigger] lines@[k])@ == zero[k] by {
                assert(scratch::channels_model(lines@)[k] == lines@[k]@);
            }
            assert(r@.histories =~~= zero);
            assert(r@.positions =~= Seq::new(num_channels as nat, |c: int| 0nat));
        }
        r
    }

    /// How many residuals the delay holds for each channel. It covers every latency below that.
    pub fn capacity(&self) -> (r: usize)
        ensures
            r == self@.capacity,
    {
        self.capacity
    }

    /// The delayed residuals of the current block.
    pub fn delayed(&self) -> (r: &Vec<Vec<u64>>)
        ensures
            scratch::channels_model(r@) == self@.delayed,
    {
        &self.delayed_block
    }

    /// Puts one residual into a channel, and takes out the one that went in `latency_samples`
    /// earlier.
    fn push(
        &mut self,
        channel_idx: usize,
        sample_idx: usize,
        residual: u64,
        latency_samples: usize,
    )
        requires
            old(self).well_formed(),
            channel_idx < old(self)@.histories.len(),
            latency_samples < old(self)@.capacity ==> sample_idx < old(
                self,
            )@.delayed[channel_idx as int].len(),
        ensures
            final(self).well_formed(),
            final(self)@ == ({
                let before = old(self)@;
                let c = channel_idx as int;
                let history = before.histories[c].drop_first().push(residual);
                DelayModel {
                    capacity: before.capacity,
                    histories: before.histories.update(c, history),
                    positions: before.positions.update(
                        c,
                        moved_on(before.positions[c], 1, before.capacity),
                    ),
                    delayed: if latency_samples < before.capacity {
                        before.delayed.update(
                            c,
                            before.delayed[c].update(
                                sample_idx as int,
                                history[before.capacity - 1 - latency_samples],
                            ),
                        )
                    } else {
                        before.delayed
                    },
                }
            }),
    {
        let ghost before = self@;
        let ghost c = channel_idx as int;
        let ghost line0 = self.lines@[c]@;
        let write_position = self.write_positions[channel_idx];
        let ghost w = write_position as int;
        self.lines[channel_idx][write_position] = residual;
        let ghost line1 = line0.update(w, residual);
        let ghost history = before.histories[c].drop_first().push(residual);
        if latency_samples < self.capacity {
            proof {
                let x = write_position + self.capacity - latency_samples;
                if latency_samples <= write_position {
                    lemma_fundamental_div_mod_converse(
                        x,
                        self.capacity as int,
                        1,
                        write_position - latency_samples,
                    );
                } else {
                    lemma_small_mod(x as nat, self.capacity as nat);
                }
            }
            let read_position = (write_position + self.capacity - latency_samples)
                % self.capacity;
            assert(line1[read_position as int] == history[self.capacity - 1 - latency_samples]);
            self.delayed_block[channel_idx][sample_idx] = self.lines[channel_idx][read_position];
        }
        let next: usize = if write_position + 1 == self.capacity {
            0
        } else {
            write_position + 1
        };
        self.write_positions[channel_idx] = next;
        proof {
            assert(self.lines@[c]@ == line1);
            assert(unrolled(line1, next as int) =~= history);
            assert(self@.histories =~= before.histories.update(c, history));
            if write_position + 1 < self.capacity {
                lemma_small_mod((write_position + 1) as nat, self.capacity as nat);
            } else {
                lemma_mod_self_0(self.capacity as int);
            }
            assert(self@.positions =~= before.positions.update(
                c,
                moved_on(before.positions[c], 1, before.capacity),
            ));
            if latency_samples < before.capacity {
                let out = before.delayed[c].update(
                    sample_idx as int,
                    history[before.capacity - 1 - latency_samples],
                );
                assert(self.delayed_block@[c]@ =~= out);
                assert(self@.delayed =~= before.delayed.update(c, out));
            } else {
                assert(self@.delayed =~= before.delayed);
            }
        }
    }

    /// Takes in one block: the difference between the host samples and their quantized form, and
    /// silence where the host has none.
    pub fn prepare(
        &mut self,
        quantized_input: Option<&F32BusScratch>,
        host_input: Option<&AudioBusBuffers>,
        num_samples: usize,
        latency_samples: usize,
    )
        requires
            old(self).well_formed(),
            forall|c: int|
                0 <= c < old(self)@.delayed.len() ==> (#[trigger] old(self)@.delayed[c]).len()
                    >= num_samples,
            quantized_input matches Some(quantized) ==> forall|c: int|
                0 <= c < quantized@.len() ==> (#[trigger] quantized@[c]).len() >= num_samples,
            host_input matches Some(bus) ==> bus@.holds(
                old(self)@.histories.len(),
                num_samples as nat,
            ),
        ensures
            final(self).well_formed(),
            final(self)@ == old(self)@.prepared(
                match quantized_input {
                    Some(quantized) => Some(quantized@),
                    None => None,
                },
                match host_input {
                    Some(bus) => Some(bus@),
                    None => None,
                },
                num_samples as nat,
                latency_samples as nat,
            ),
    {
        let ghost before = self@;
        self.clear_delayed(num_samples);
        let ghost silent = self@;
        let quantized_input = match quantized_input {
            Some(quantized_input) => quantized_input,
            None => {
                assert(self@ =~~= before.prepared(
                    None,
                    match host_input {
                        Some(bus) => Some(bus@),
                        None => None,
                    },
                    num_samples as nat,
                    latency_samples as nat,
                ));
                return;
            },
        };
        let ghost quantized = quantized_input@;
        let host_input = match host_input {
            Some(host_input) => host_input,
            None => {
                self.push_silence(num_samples, latency_samples);
                proof {
                    lemma_blocks_of_silence(quantized, None, num_samples as nat);
                    assert(self@ =~~= before.prepared(
                        Some(quantized),
                        None,
                        num_samples as nat,
                        latency_samples as nat,
                    ));
                }
                return;
            },
        };
        let ghost bus = host_input@;
        if !host_input.is_connected() {
            self.push_silence(num_samples, latency_samples);
            proof {
                lemma_blocks_of_silence(quantized, Some(bus), num_samples as nat);
                assert(self@ =~~= before.prepared(
                    Some(quantized),
                    Some(bus),
                    num_samples as nat,
                    latency_samples as nat,
                ));
            }
            return;
        }
        let ghost target = before.prepared(
            Some(quantized),
            Some(bus),
            num_samples as nat,
            latency_samples as nat,
        );
        let mut channel_idx: usize = 0;
        while channel_idx < self.lines.len()
            invariant
                self.well_formed(),
                channel_idx <= self@.histories.len(),
                before.histories.len() == self@.histories.len(),
                before.delayed.len() == self@.histories.len(),
                self@.capacity == before.capacity,
                scratch::uniform(before.histories, before.capacity),
                before.positions.len() == self@.histories.len(),
                self@.positions.len() == before.positions.len(),
                forall|c: int|
                    0 <= c < before.positions.len() ==> #[trigger] before.positions[c]
                        < before.capacity,
                forall|c: int|
                    0 <= c < channel_idx ==> #[trigger] self@.positions[c] == target.positions[c],
                forall|c: int|
                    channel_idx <= c < before.positions.len() ==> #[trigger] self@.positions[c]
                        == before.positions[c],
                quantized == quantized_input@,
                bus == host_input@,
                silent.delayed == scratch::cleared(before.delayed, num_samples as nat, 0u64),
                target == before.prepared(
                    Some(quantized),
                    Some(bus),
                    num_samples as nat,
                    latency_samples as nat,
                ),
                forall|c: int|
                    0 <= c < before.delayed.len() ==> (#[trigger] before.delayed[c]).len()
                        >= num_samples,
                forall|c: int|
                    0 <= c < quantized.len() ==> (#[trigger] quantized[c]).len() >= num_samples,
                bus.holds(before.histories.len(), num_samples as nat),
                forall|c: int|
                    0 <= c < channel_idx ==> #[trigger] self@.histories[c] == target.histories[c],
                forall|c: int|
                    0 <= c < channel_idx ==> #[trigger] self@.delayed[c] == target.delayed[c],
                forall|c: int|
                    channel_idx <= c < before.histories.len() ==> #[trigger] self@.histories[c]
                        == before.histories[c],
                forall|c: int|
                    channel_idx <= c < before.histories.len() ==> #[trigger] self@.delayed[c]
                        == silent.delayed[c],
            decreases self@.histories.len() - channel_idx,
        {
            let ghost c = channel_idx as int;
            let ghost base = self@;
            let ghost block = block_residuals(quantized, Some(bus), c, num_samples as nat);
            let ghost history = before.histories[c];
            let host_channel = host_input.channel_buffer(channel_idx);
            let num_quantized = quantized_input.num_channels();
            assert(advanced(history, block.take(0)) =~= history);
            assert(base.histories.update(c, history) =~= base.histories);
            let ghost position = before.positions[c];
            proof {
                lemma_small_mod(position, before.capacity);
            }
            assert(base.positions.update(c, position) =~= base.positions);
            let mut sample_idx: usize = 0;
            while sample_idx < num_samples
                invariant
                    self.well_formed(),
                    sample_idx <= num_samples,
                    c == channel_idx,
                    0 <= c < before.histories.len(),
                    before.delayed.len() == before.histories.len(),
                    base.histories.len() == before.histories.len(),
                    base.delayed.len() == before.histories.len(),
                    base.capacity == before.capacity,
                    self@.capacity == base.capacity,
                    self@.delayed.len() == base.delayed.len(),
                    num_quantized == quantized.len(),
                    quantized == quantized_input@,
                    forall|k: int|
                        0 <= k < quantized.len() ==> (#[trigger] quantized[k]).len() >= num_samples,
                    host_channel is Some <==> bus.has_channel(c),
                    host_channel matches Some(samples) ==> samples@ == bus.channel(c)
                        && samples@.len() >= num_samples,
                    block == block_residuals(quantized, Some(bus), c, num_samples as nat),
                    history == before.histories[c],
                    history.len() == before.capacity,
                    before.capacity > 0,
                    base.positions.len() == before.histories.len(),
                    self@.positions == base.positions.update(
                        c,
                        moved_on(position, sample_idx as nat, before.capacity),
                    ),
                    before.delayed[c].len() >= num_samples,
                    base.delayed[c] == scratch::cleared(
                        before.delayed,
                        num_samples as nat,
                        0u64,
                    )[c],
                    self@.histories == base.histories.update(
                        c,
                        advanced(history, block.take(sample_idx as int)),
                    ),
                    forall|k: int|
                        0 <= k < base.delayed.len() && k != c ==> #[trigger] self@.delayed[k]
                            == base.delayed[k],
                    self@.delayed[c].len() == before.delayed[c].len(),
                    forall|k: int|
                        0 <= k < before.delayed[c].len() ==> #[trigger] self@.delayed[c][k] == if k
                            < sample_idx {
                            delayed_sample(history, block, latency_samples as nat, k)
                        } else {
                            base.delayed[c][k]
                        },
                decreases num_samples - sample_idx,
            {
                let residual: u64 = match host_channel {
                    Some(samples) => {
                        if channel_idx >= num_quantized {
                            0
                        } else {
                            residual_of(
                                samples[sample_idx],
                                quantized_input.channel(channel_idx)[sample_idx],
                            )
                        }
                    },
                    None => 0,
                };
                assert(residual == block[sample_idx as int]);
                self.push(channel_idx, sample_idx, residual, latency_samples);
                proof {
                    lemma_advance_by_one(
                        history,
                        block,
                        latency_samples as nat,
                        sample_idx as int,
                    );
                    assert(self@.histories =~= base.histories.update(
                        c,
                        advanced(history, block.take(sample_idx + 1)),
                    ));
                    lemma_move_on_by_one(position, sample_idx as nat, before.capacity);
                    assert(self@.positions =~= base.positions.update(
                        c,
                        moved_on(position, (sample_idx + 1) as nat, before.capacity),
                    ));
                }
                sample_idx += 1;
            }
            proof {
                assert(block.take(num_samples as int) =~= block);
                assert(self@.histories[c] == target.histories[c]);
                assert(self@.positions[c] == target.positions[c]);
                assert(self@.delayed[c] =~= target.delayed[c]);
            }
            channel_idx += 1;
        }
        proof {
            self.lemma_model();
            assert(self@.histories =~= target.histories);
            assert(self@.positions =~= target.positions);
            assert(self@.delayed =~= target.delayed);
        }
    }

    /// Silences the delayed residuals of a block.
    fn clear_delayed(&mut self, num_samples: usize)
        requires
            old(self).well_formed(),
            forall|c: int|
                0 <= c < old(self)@.delayed.len() ==> (#[trigger] old(self)@.delayed[c]).len()
                    >= num_samples,
        ensures
            final(self).well_formed(),
            final(self)@ == (DelayModel {
                delayed: scratch::cleared(old(self)@.delayed, num_samples as nat, 0u64),
                ..old(self)@
            }),
    {
        let ghost before = self@;
        proof {
            assert forall|c: int| 0 <= c < self.delayed_block@.len() implies (
            #[trigger] self.delayed_block@[c])@.len() >= num_samples by {
                assert(self@.delayed[c] == self.delayed_block@[c]@);
            }
        }
        clear_channels(&mut self.delayed_block, num_samples, 0u64);
        proof {
            assert(scratch::channels_model(self.delayed_block@).len() == before.delayed.len());
            assert(self@.histories =~= before.histories);
            assert(self@.positions =~= before.positions);
        }
    }

    /// Takes in one block of silence.
    pub fn push_silence(&mut self, num_samples: usize, latency_samples: usize)
        requires
            old(self).well_formed(),
            latency_samples < old(self)@.capacity ==> forall|c: int|
                0 <= c < old(self)@.delayed.len() ==> (#[trigger] old(self)@.delayed[c]).len()
                    >= num_samples,
        ensures
            final(self).well_formed(),
            final(self)@ == old(self)@.silenced(num_samples as nat, latency_samples as nat),
    {
        let ghost before = self@;
        let ghost target = before.silenced(num_samples as nat, latency_samples as nat);
        let ghost block = Seq::new(num_samples as nat, |i: int| 0u64);
        proof {
            self.lemma_model();
        }
        let mut channel_idx: usize = 0;
        while channel_idx < self.lines.len()
            invariant
                self.well_formed(),
                channel_idx <= self@.histories.len(),
                before.histories.len() == self@.histories.len(),
                before.delayed.len() == self@.histories.len(),
                self@.capacity == before.capacity,
                scratch::uniform(before.histories, before.capacity),
                before.positions.len() == self@.histories.len(),
                self@.positions.len() == before.positions.len(),
                forall|c: int|
                    0 <= c < before.positions.len() ==> #[trigger] before.positions[c]
                        < before.capacity,
                forall|c: int|
                    0 <= c < channel_idx ==> #[trigger] self@.positions[c] == target.positions[c],
                forall|c: int|
                    channel_idx <= c < before.positions.len() ==> #[trigger] self@.positions[c]
                        == before.positions[c],
                target == before.silenced(num_samples as nat, latency_samples as nat),
                block == Seq::new(num_samples as nat, |i: int| 0u64),
                latency_samples < before.capacity ==> forall|c: int|
                    0 <= c < before.delayed.len() ==> (#[trigger] before.delayed[c]).len()
                        >= num_samples,
                forall|c: int|
                    0 <= c < channel_idx ==> #[trigger] self@.histories[c] == target.histories[c],
                forall|c: int|
                    0 <= c < channel_idx ==> #[trigger] self@.delayed[c] == target.delayed[c],
                forall|c: int|
                    channel_idx <= c < before.histories.len() ==> #[trigger] self@.histories[c]
                        == before.histories[c],
                forall|c: int|
                    channel_idx <= c < before.histories.len() ==> #[trigger] self@.delayed[c]
                        == before.delayed[c],
            decreases self@.histories.len() - channel_idx,
        {
            let ghost c = channel_idx as int;
            let ghost base = self@;
            let ghost history = before.histories[c];
            assert(advanced(history, block.take(0)) =~= history);
            assert(base.histories.update(c, history) =~= base.histories);
            let ghost position = before.positions[c];
            proof {
                lemma_small_mod(position, before.capacity);
            }
            assert(base.positions.update(c, position) =~= base.positions);
            let mut sample_idx: usize = 0;
            while sample_idx < num_samples
                invariant
                    self.well_formed(),
                    sample_idx <= num_samples,
                    c == channel_idx,
                    0 <= c < before.histories.len(),
                    before.delayed.len() == before.histories.len(),
                    base.histories.len() == before.histories.len(),
                    base.delayed.len() == before.histories.len(),
                    base.capacity == before.capacity,
                    self@.capacity == base.capacity,
                    self@.delayed.len() == base.delayed.len(),
                    block == Seq::new(num_samples as nat, |i: int| 0u64),
                    history == before.histories[c],
                    history.len() == before.capacity,
                    before.capacity > 0,
                    base.positions.len() == before.histories.len(),
                    self@.positions == base.positions.update(
                        c,
                        moved_on(position, sample_idx as nat, before.capacity),
                    ),
                    latency_samples < before.capacity ==> before.delayed[c].len() >= num_samples,
                    self@.histories == base.histories.update(
                        c,
                        advanced(history, block.take(sample_idx as int)),
                    ),
                    forall|k: int|
                        0 <= k < base.delayed.len() && k != c ==> #[trigger] self@.delayed[k]
                            == base.delayed[k],
                    self@.delayed[c].len() == before.delayed[c].len(),
                    base.delayed[c] == before.delayed[c],
                    forall|k: int|
                        0 <= k < before.delayed[c].len() ==> #[trigger] self@.delayed[c][k] == if k
                            < sample_idx && latency_samples < before.capacity {
                            delayed_sample(history, block, latency_samples as nat, k)
                        } else {
                            before.delayed[c][k]
                        },
                decreases num_samples - sample_idx,
            {
                self.push(channel_idx, sample_idx, 0, latency_samples);
                proof {
                    lemma_advance_by_one(
                        history,
                        block,
                        latency_samples as nat,
                        sample_idx as int,
                    );
                    assert(self@.histories =~= base.histories.update(
                        c,
                        advanced(history, block.take(sample_idx + 1)),
                    ));
                    lemma_move_on_by_one(position, sample_idx as nat, before.capacity);
                    assert(self@.positions =~= base.positions.update(
                        c,
                        moved_on(position, (sample_idx + 1) as nat, before.capacity),
                    ));
                }
                sample_idx += 1;
            }
            proof {
                assert(block.take(num_samples as int) =~= block);
                assert(self@.histories[c] == target.histories[c]);
                assert(self@.positions[c] == target.positions[c]);
                assert(self@.delayed[c] =~= target.delayed[c]);
            }
            channel_idx += 1;
        }
        proof {
            self.lemma_model();
            assert(self@.histories =~= target.histories);
            assert(self@.positions =~= target.positions);
            assert(self@.delayed =~= target.delayed);
        }
    }
}

impl DelayModel {
    /// The delay after a block of silence. Where the latency is not covered, the block is left as
    /// it was.
    pub open spec fn silenced(self, num_samples: nat, latency: nat) -> DelayModel {
        let block = Seq::new(num_samples, |i: int| 0u64);
        DelayModel {
            capacity: self.capacity,
            histories: Seq::new(self.histories.len(), |c: int| advanced(self.histories[c], block)),
            positions: Seq::new(
                self.positions.len(),
                |c: int| moved_on(self.positions[c], num_samples, self.capacity),
            ),
            delayed: Seq::new(
                self.delayed.len(),
                |c: int|
                    Seq::new(
                        self.delayed[c].len(),
                        |i: int|
                            if i < num_samples && latency < self.capacity {
                                delayed_sample(self.histories[c], block, latency, i)
                            } else {
                                self.delayed[c][i]
                            },
                    ),
            ),
        }
    }
}

/// Putting in one more residual of a block, and what comes out along with it.
proof fn lemma_advance_by_one(history: Seq<u64>, block: Seq<u64>, latency: nat, i: int)
    requires
        history.len() > 0,
        0 <= i < block.len(),
    ensures
        advanced(history, block.take(i)).drop_first().push(block[i]) == advanced(
            history,
            block.take(i + 1),
        ),
        latency < history.len() ==> advanced(history, block.take(i + 1))[history.len() - 1
            - latency] == delayed_sample(history, block, latency, i),
{
    assert(advanced(history, block.take(i)).drop_first().push(block[i]) =~= advanced(
        history,
        block.take(i + 1),
    ));
}

/// Moving on by one sample more.
proof fn lemma_move_on_by_one(position: nat, num_samples: nat, capacity: nat)
    requires
        capacity > 0,
    ensures
        moved_on(moved_on(position, num_samples, capacity), 1, capacity) == moved_on(
            position,
            num_samples + 1,
            capacity,
        ),
{
    lemma_add_mod_noop_right(1, (position + num_samples) as int, capacity as int);
}

/// A host that passed no buffer leaves blocks of silence.
proof fn lemma_blocks_of_silence(
    quantized: Seq<Seq<u32>>,
    host_input: Option<host::BusModel>,
    num_samples: nat,
)
    requires
        host_input matches Some(bus) ==> !bus.connected(),
    ensures
        forall|c: int|
            #![trigger block_residuals(quantized, host_input, c, num_samples)]
            block_residuals(quantized, host_input, c, num_samples) == Seq::new(
                num_samples,
                |i: int| 0u64,
            ),
{
    assert forall|c: int|
        #![trigger block_residuals(quantized, host_input, c, num_samples)]
        block_residuals(quantized, host_input, c, num_samples) == Seq::new(
            num_samples,
            |i: int| 0u64,
        ) by {
        assert(block_residuals(quantized, host_input, c, num_samples) =~= Seq::new(
            num_samples,
            |i: int| 0u64,
        ));
    }
}

} // verus!
