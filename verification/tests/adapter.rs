use vst3_sample64::adapter::F64BufferAdapter;
use vst3_sample64::host::{host_bus, host_bus_mut, AudioBusBuffers, ProcessData};
use vst3_sample64::layout::AudioIOLayout;

fn bits(samples: &[f64]) -> Vec<u64> {
    samples.iter().map(|sample| sample.to_bits()).collect()
}

fn samples(bits: &[u64]) -> Vec<f64> {
    bits.iter().map(|bits| f64::from_bits(*bits)).collect()
}

fn bus(channels: &[&[f64]]) -> AudioBusBuffers {
    AudioBusBuffers {
        num_channels: channels.len() as i32,
        buffers: Some(channels.iter().map(|channel| Some(bits(channel))).collect()),
    }
}

fn process_data(inputs: Vec<AudioBusBuffers>, outputs: Vec<AudioBusBuffers>) -> ProcessData {
    ProcessData {
        num_inputs: inputs.len() as i32,
        num_outputs: outputs.len() as i32,
        inputs: Some(inputs),
        outputs: Some(outputs),
    }
}

fn output(data: &ProcessData, bus: usize, channel: usize) -> Vec<f64> {
    let busses = data.outputs.as_ref().unwrap();
    let table = busses[bus].buffers.as_ref().unwrap();
    samples(table[channel].as_ref().unwrap())
}

fn stereo() -> AudioIOLayout {
    AudioIOLayout {
        main_input_channels: Some(2),
        main_output_channels: Some(2),
        ..AudioIOLayout::const_default()
    }
}

fn mono() -> AudioIOLayout {
    AudioIOLayout {
        main_input_channels: Some(1),
        main_output_channels: Some(1),
        ..AudioIOLayout::const_default()
    }
}

fn adapter(max_samples: usize, layout: AudioIOLayout, seconds: f64) -> F64BufferAdapter {
    F64BufferAdapter::for_audio_io_layout(
        max_samples,
        layout,
        48_000.0f32.to_bits(),
        seconds.to_bits(),
    )
}

fn input_channel(adapter: &mut F64BufferAdapter, channel: usize) -> Vec<u32> {
    adapter.main_input_channel_pointers().unwrap().channel(channel).to_vec()
}

fn fill_output(adapter: &mut F64BufferAdapter, channel: usize, values: &[u32]) {
    let scratch = adapter.main_output_channel_pointers().unwrap();
    scratch.channel_mut(channel)[..values.len()].copy_from_slice(values);
}

#[test]
fn zero_latency_transparent_path_restores_f64_carrier_exactly() {
    let mut adapter = adapter(4, stereo(), 1.0);
    let input_l = [0.123_456_789_012_345, -0.75, 1.0e-20, 0.0];
    let input_r = [-0.333_333_333_333, 0.5, -1.0e-18, 1.0];
    let expected_l = input_l;
    let expected_r = input_r;
    let mut data = process_data(
        vec![bus(&[&input_l, &input_r])],
        vec![bus(&[&[0.0; 4], &[0.0; 4]])],
    );

    adapter.prepare(&data, 4, 0);
    for channel_idx in 0..2 {
        let input = input_channel(&mut adapter, channel_idx);
        fill_output(&mut adapter, channel_idx, &input);
    }
    adapter.write_back(&mut data, 4);

    assert_eq!(output(&data, 0, 0), expected_l);
    assert_eq!(output(&data, 0, 1), expected_r);
}

#[test]
fn reported_latency_delays_the_f64_residual_across_blocks() {
    let mut adapter = adapter(2, mono(), 1.0);
    let source = [0.123_456_789_012_345, -0.333_333_333_333, 0.25, -0.5];
    let mut delayed_quantized = [0.0_f32; 4];
    for index in 2..4 {
        delayed_quantized[index] = source[index - 2] as f32;
    }
    let mut rendered = [0.0_f64; 4];

    for block in 0..2 {
        let start = block * 2;
        let input = [source[start], source[start + 1]];
        let mut data = process_data(vec![bus(&[&input])], vec![bus(&[&[0.0; 2]])]);

        adapter.prepare(&data, 2, 2);
        let quantized: Vec<u32> =
            delayed_quantized[start..start + 2].iter().map(|sample| sample.to_bits()).collect();
        fill_output(&mut adapter, 0, &quantized);
        adapter.write_back(&mut data, 2);
        rendered[start..start + 2].copy_from_slice(&output(&data, 0, 0));
    }

    assert_eq!(rendered[0], 0.0);
    assert_eq!(rendered[1], 0.0);
    assert_eq!(rendered[2], source[0]);
    assert_eq!(rendered[3], source[1]);
}

#[test]
fn latency_is_kept_over_many_uneven_blocks() {
    // a capacity of 6 samples, so that the ring wraps many times
    for latency in 0..6usize {
        let mut adapter = adapter(5, mono(), 5.0 / 48_000.0);
        assert_eq!(adapter.residual_capacity(), 6);
        let source: Vec<f64> = (0..60).map(|i| 1.0 / (i as f64 + 3.0)).collect();
        let mut rendered: Vec<f64> = Vec::new();
        let mut start = 0;
        let mut length = 1;
        while start < source.len() {
            let end = (start + length).min(source.len());
            let n = end - start;
            let mut data =
                process_data(vec![bus(&[&source[start..end]])], vec![bus(&[&vec![9.0; n]])]);
            adapter.prepare(&data, n, latency as u32);
            let delayed: Vec<u32> = (start..end)
                .map(|t| {
                    if t >= latency {
                        (source[t - latency] as f32).to_bits()
                    } else {
                        0
                    }
                })
                .collect();
            fill_output(&mut adapter, 0, &delayed);
            adapter.write_back(&mut data, n);
            rendered.extend(output(&data, 0, 0));
            start = end;
            length = length % 5 + 1;
        }
        for t in 0..source.len() {
            let expected = if t >= latency { source[t - latency] } else { 0.0 };
            assert_eq!(rendered[t], expected, "latency {latency}, sample {t}");
        }
    }
}

#[test]
fn uncovered_latency_adds_no_residual() {
    let mut adapter = adapter(2, mono(), 0.0);
    assert_eq!(adapter.residual_capacity(), 1);
    let mut data = process_data(vec![bus(&[&[0.1, 0.2]])], vec![bus(&[&[0.0; 2]])]);
    adapter.prepare(&data, 2, 1);
    let input = input_channel(&mut adapter, 0);
    fill_output(&mut adapter, 0, &input);
    adapter.write_back(&mut data, 2);
    assert_eq!(output(&data, 0, 0), [0.1f32 as f64, 0.2f32 as f64]);
}

#[test]
fn samples_beyond_the_32_bit_range_come_back_quantized() {
    let mut adapter = adapter(4, mono(), 1.0);
    let input = [f64::MAX, f64::NEG_INFINITY, f64::NAN, -0.0];
    let mut data = process_data(vec![bus(&[&input])], vec![bus(&[&[0.0; 4]])]);
    adapter.prepare(&data, 4, 0);
    let quantized = input_channel(&mut adapter, 0);
    fill_output(&mut adapter, 0, &quantized);
    adapter.write_back(&mut data, 4);
    let rendered = output(&data, 0, 0);
    assert_eq!(rendered[0], f64::INFINITY);
    assert_eq!(rendered[1], f64::NEG_INFINITY);
    assert!(rendered[2].is_nan());
    assert_eq!(rendered[3].to_bits(), 0);
}

#[test]
fn buses_that_the_host_left_out_are_silent_and_absent() {
    let mut adapter = adapter(2, stereo(), 1.0);
    let loud = process_data(
        vec![bus(&[&[1.0, 1.0], &[1.0, 1.0]])],
        vec![bus(&[&[0.0; 2], &[0.0; 2]])],
    );
    adapter.prepare(&loud, 2, 0);
    assert!(adapter.main_input_channel_pointers().is_some());
    assert!(adapter.main_output_channel_pointers().is_some());

    let none = ProcessData { num_inputs: 1, num_outputs: 1, inputs: None, outputs: None };
    adapter.prepare(&none, 2, 0);
    assert!(adapter.main_input_channel_pointers().is_none());
    assert!(adapter.main_output_channel_pointers().is_none());

    // no buffer for the first channel, and no output bus
    let data = process_data(
        vec![AudioBusBuffers {
            num_channels: 2,
            buffers: Some(vec![None, Some(bits(&[0.5, 0.25]))]),
        }],
        vec![],
    );
    adapter.prepare(&data, 2, 0);
    assert_eq!(input_channel(&mut adapter, 0), [0, 0]);
    assert_eq!(input_channel(&mut adapter, 1), [0.5f32.to_bits(), 0.25f32.to_bits()]);
    assert!(adapter.main_output_channel_pointers().is_none());
}

#[test]
fn host_bus_checks_table_count_and_connection() {
    let connected = || bus(&[&[0.0]]);
    let some = Some(vec![connected(), connected()]);
    assert!(host_bus(&some, 2, 1).is_some());
    assert!(host_bus(&some, 2, 2).is_none());
    assert!(host_bus(&some, 1, 1).is_none());
    assert!(host_bus(&some, 0, 0).is_none());
    assert!(host_bus(&some, -1, 0).is_none());
    assert!(host_bus(&None, 2, 0).is_none());
    let no_table = Some(vec![AudioBusBuffers { num_channels: 2, buffers: None }]);
    assert!(host_bus(&no_table, 1, 0).is_none());
    let no_channels = Some(vec![AudioBusBuffers { num_channels: 0, buffers: Some(vec![]) }]);
    assert!(host_bus(&no_channels, 1, 0).is_none());
    let mut changed = Some(vec![connected()]);
    host_bus_mut(&mut changed, 1, 0).unwrap().num_channels = 0;
    assert!(host_bus_mut(&mut changed, 1, 0).is_none());
}

#[test]
fn auxiliary_buses_follow_the_main_bus() {
    let layout = AudioIOLayout {
        main_input_channels: Some(1),
        main_output_channels: Some(1),
        aux_input_ports: &[1, 2],
        aux_output_ports: &[2],
    };
    let mut adapter = adapter(2, layout, 1.0);
    let mut data = process_data(
        vec![bus(&[&[0.1, 0.1]]), bus(&[&[0.5, 0.25]])],
        vec![bus(&[&[7.0, 7.0]]), bus(&[&[7.0, 7.0], &[7.0, 7.0]])],
    );
    adapter.prepare(&data, 2, 0);
    let first = adapter.aux_input_channel_pointers(0).unwrap();
    assert_eq!(first.num_channels(), 1);
    assert_eq!(first.channel(0), [0.5f32.to_bits(), 0.25f32.to_bits()]);
    assert!(adapter.aux_input_channel_pointers(1).is_none());
    let out = adapter.aux_output_channel_pointers(0).unwrap();
    assert_eq!(out.channel(1), [0, 0]);
    out.channel_mut(1)[0] = 0.1f32.to_bits();
    adapter.write_back(&mut data, 2);
    // no residual goes to an auxiliary bus, and none of it is lost on the main bus
    assert_eq!(output(&data, 1, 0), [0.0, 0.0]);
    assert_eq!(output(&data, 1, 1), [0.1f32 as f64, 0.0]);
    assert_eq!(output(&data, 0, 0), [0.1 - 0.1f32 as f64, 0.1 - 0.1f32 as f64]);
}

#[test]
fn auxiliary_buses_come_first_without_a_main_bus() {
    let layout = AudioIOLayout {
        aux_input_ports: &[1],
        aux_output_ports: &[1],
        ..AudioIOLayout::const_default()
    };
    let mut adapter = adapter(1, layout, 1.0);
    let mut data = process_data(vec![bus(&[&[0.5]])], vec![bus(&[&[3.0]])]);
    adapter.prepare(&data, 1, 0);
    assert!(adapter.main_input_channel_pointers().is_none());
    assert!(adapter.main_output_channel_pointers().is_none());
    assert_eq!(adapter.aux_input_channel_pointers(0).unwrap().channel(0), [0.5f32.to_bits()]);
    adapter.aux_output_channel_pointers(0).unwrap().channel_mut(0)[0] = 1.0f32.to_bits();
    adapter.write_back(&mut data, 1);
    assert_eq!(output(&data, 0, 0), [1.0]);
}

#[test]
fn write_back_leaves_the_rest_of_the_host_alone() {
    let mut adapter = adapter(3, mono(), 1.0);
    let mut data = process_data(
        vec![bus(&[&[0.5, 0.5, 0.5]])],
        vec![bus(&[&[7.0, 7.0, 7.0], &[8.0, 8.0, 8.0]]), bus(&[&[9.0]])],
    );
    adapter.prepare(&data, 2, 0);
    adapter.write_back(&mut data, 2);
    assert_eq!(output(&data, 0, 0), [0.0, 0.0, 7.0]);
    assert_eq!(output(&data, 0, 1), [8.0, 8.0, 8.0]);
    assert_eq!(output(&data, 1, 0), [9.0]);
    let input = data.inputs.as_ref().unwrap()[0].buffers.as_ref().unwrap()[0].as_ref().unwrap();
    assert_eq!(samples(input), [0.5, 0.5, 0.5]);
}

#[test]
fn a_block_changes_no_size() {
    let mut adapter = adapter(4, stereo(), 1.0);
    let data = process_data(vec![bus(&[&[0.5], &[0.5]])], vec![bus(&[&[0.0], &[0.0]])]);
    adapter.prepare(&data, 1, 0);
    assert_eq!(adapter.max_samples(), 4);
    assert_eq!(adapter.residual_capacity(), 48_001);
    assert_eq!(input_channel(&mut adapter, 0).len(), 4);
    assert_eq!(input_channel(&mut adapter, 1), [0.5f32.to_bits(), 0, 0, 0]);
}

#[test]
fn a_silent_input_lets_the_delayed_residual_out() {
    let mut adapter = adapter(1, mono(), 1.0);
    let first = process_data(vec![bus(&[&[0.1]])], vec![bus(&[&[0.0]])]);
    adapter.prepare(&first, 1, 1);
    let mut second = process_data(vec![], vec![bus(&[&[0.0]])]);
    adapter.prepare(&second, 1, 1);
    fill_output(&mut adapter, 0, &[0.1f32.to_bits()]);
    adapter.write_back(&mut second, 1);
    assert_eq!(output(&second, 0, 0), [0.1]);
}

#[test]
fn write_back_needs_no_room_where_nothing_is_connected() {
    let adapter = adapter(1, mono(), 1.0);
    let unconnected = AudioBusBuffers { num_channels: 1, buffers: Some(vec![None]) };
    let mut data = process_data(vec![], vec![unconnected]);
    adapter.write_back(&mut data, 7);
    assert!(data.outputs.unwrap()[0].buffers.as_ref().unwrap()[0].is_none());
}
