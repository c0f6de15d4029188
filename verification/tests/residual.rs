use vst3_sample64::host::AudioBusBuffers;
use vst3_sample64::residual::ResidualDelay;
use vst3_sample64::scratch::F32BusScratch;

fn bus(samples: &[f64]) -> AudioBusBuffers {
    AudioBusBuffers {
        num_channels: 1,
        buffers: Some(vec![Some(samples.iter().map(|sample| sample.to_bits()).collect())]),
    }
}

fn delayed(delay: &ResidualDelay) -> Vec<f64> {
    delay.delayed()[0].iter().map(|bits| f64::from_bits(*bits)).collect()
}

fn loaded(host: &AudioBusBuffers, n: usize) -> F32BusScratch {
    let mut scratch = F32BusScratch::new(1, n);
    scratch.load_f64(host, n);
    scratch
}

fn residual(sample: f64) -> f64 {
    sample - f64::from(sample as f32)
}

#[test]
fn residuals_come_out_after_the_latency() {
    let mut delay = ResidualDelay::new(1, 3, 3);
    assert_eq!(delay.capacity(), 3);
    let host = bus(&[0.1, 0.2, 0.3]);
    delay.prepare(Some(&loaded(&host, 3)), Some(&host), 3, 2);
    assert_eq!(delayed(&delay), [0.0, 0.0, residual(0.1)]);
    let host = bus(&[0.4, 0.6, 0.7]);
    delay.prepare(Some(&loaded(&host, 3)), Some(&host), 3, 2);
    assert_eq!(delayed(&delay), [residual(0.2), residual(0.3), residual(0.4)]);
    // the latency may change from block to block
    delay.prepare(Some(&loaded(&host, 3)), Some(&host), 3, 0);
    assert_eq!(delayed(&delay), [residual(0.4), residual(0.6), residual(0.7)]);
}

#[test]
fn one_block_or_two_come_to_the_same() {
    let values = [0.1, 0.2, 0.3, 0.4, 0.6];
    let whole = bus(&values);
    let mut once = ResidualDelay::new(1, 5, 4);
    once.prepare(Some(&loaded(&whole, 5)), Some(&whole), 5, 3);
    let mut twice = ResidualDelay::new(1, 5, 4);
    let mut joined: Vec<f64> = Vec::new();
    for part in [&values[..2], &values[2..]] {
        let host = bus(part);
        twice.prepare(Some(&loaded(&host, part.len())), Some(&host), part.len(), 3);
        joined.extend(&delayed(&twice)[..part.len()]);
    }
    assert_eq!(joined, delayed(&once));
}

#[test]
fn silence_pushes_residuals_out() {
    let mut delay = ResidualDelay::new(1, 2, 2);
    let host = bus(&[0.1, 0.2]);
    let scratch = loaded(&host, 2);
    delay.prepare(Some(&scratch), Some(&host), 2, 1);
    delay.push_silence(2, 1);
    assert_eq!(delayed(&delay), [residual(0.2), 0.0]);
    delay.prepare(Some(&scratch), None, 2, 1);
    assert_eq!(delayed(&delay), [0.0, 0.0]);
    let disconnected = AudioBusBuffers { num_channels: 0, buffers: None };
    delay.prepare(Some(&scratch), Some(&host), 2, 1);
    delay.prepare(Some(&scratch), Some(&disconnected), 2, 1);
    assert_eq!(delayed(&delay), [residual(0.2), 0.0]);
}

#[test]
fn silence_after_a_full_ring_lets_out_what_the_latency_held_back() {
    let mut delay = ResidualDelay::new(1, 5, 4);
    let values = [0.1, 0.2, 0.3, 0.4, 0.6];
    let host = bus(&values);
    delay.prepare(Some(&loaded(&host, 5)), Some(&host), 5, 3);
    delay.push_silence(5, 3);
    assert_eq!(delayed(&delay), [residual(0.3), residual(0.4), residual(0.6), 0.0, 0.0]);
    delay.push_silence(3, 3);
    assert_eq!(delayed(&delay), [0.0, 0.0, 0.0, 0.0, 0.0]);
}

#[test]
fn silence_without_a_covered_latency_leaves_the_block_alone() {
    let mut delay = ResidualDelay::new(1, 2, 2);
    let host = bus(&[0.1, 0.2]);
    delay.prepare(Some(&loaded(&host, 2)), Some(&host), 2, 0);
    delay.push_silence(9, 2);
    assert_eq!(delayed(&delay), [residual(0.1), residual(0.2)]);
    delay.push_silence(1, 1);
    assert_eq!(delayed(&delay)[0], 0.0);
}

#[test]
fn nothing_goes_in_without_a_quantized_input() {
    let mut delay = ResidualDelay::new(1, 2, 2);
    let host = bus(&[0.1, 0.2]);
    delay.prepare(Some(&loaded(&host, 2)), Some(&host), 2, 0);
    delay.prepare(None, Some(&host), 2, 0);
    assert_eq!(delayed(&delay), [0.0, 0.0]);
    delay.push_silence(1, 1);
    assert_eq!(delayed(&delay)[0], residual(0.2));
}

#[test]
fn a_latency_of_the_capacity_is_not_covered() {
    let mut delay = ResidualDelay::new(1, 2, 1);
    let host = bus(&[0.1, 0.2]);
    delay.prepare(Some(&loaded(&host, 2)), Some(&host), 2, 1);
    assert_eq!(delayed(&delay), [0.0, 0.0]);
    delay.prepare(Some(&loaded(&host, 2)), Some(&host), 2, 0);
    assert_eq!(delayed(&delay), [residual(0.1), residual(0.2)]);
}

#[test]
fn loading_clears_channels_without_a_buffer() {
    let mut scratch = F32BusScratch::new(2, 3);
    scratch.channel_mut(0).copy_from_slice(&[1, 2, 3]);
    scratch.channel_mut(1).copy_from_slice(&[4, 5, 6]);
    scratch.load_f64(&bus(&[1.0, 2.0, 3.0]), 2);
    assert_eq!(scratch.channel(0), [1.0f32.to_bits(), 2.0f32.to_bits(), 3]);
    assert_eq!(scratch.channel(1), [0, 0, 6]);
    scratch.clear(3);
    assert_eq!(scratch.channel(1), [0, 0, 0]);
    assert_eq!(scratch.num_channels(), 2);
}

#[test]
fn storing_adds_the_residual_of_each_channel() {
    let mut scratch = F32BusScratch::new(1, 2);
    scratch.channel_mut(0).copy_from_slice(&[0.5f32.to_bits(), 1.0f32.to_bits()]);
    let mut host = bus(&[7.0, 7.0]);
    let residual = vec![vec![1.0e-12f64.to_bits(), (-1.0e-12f64).to_bits()]];
    scratch.store_f64(&mut host, 2, Some(&residual));
    let stored = host.buffers.as_ref().unwrap()[0].as_ref().unwrap();
    assert_eq!(f64::from_bits(stored[0]), 0.5 + 1.0e-12);
    assert_eq!(f64::from_bits(stored[1]), 1.0 - 1.0e-12);
    scratch.store_f64(&mut host, 1, None);
    let stored = host.buffers.as_ref().unwrap()[0].as_ref().unwrap();
    assert_eq!(f64::from_bits(stored[0]), 0.5);
    assert_eq!(f64::from_bits(stored[1]), 1.0 - 1.0e-12);
}
