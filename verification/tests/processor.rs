use elastic_kernel::processor::{
    BufferHealth, ElasticProcessor, Slot, Step, MAX_RATE, MIN_RATE, NOMINAL_SAMPLE_RATE,
    UNITY_RATE, ZERO_FRACTION,
};

fn sample_bits(samples: &[f32]) -> Vec<u32> {
    samples.iter().map(|s| s.to_bits()).collect()
}

fn feed(processor: &mut ElasticProcessor, samples: &[f32]) {
    processor.push_data(&sample_bits(samples));
}

fn schedule(processor: &ElasticProcessor, slots: usize) -> Vec<Step> {
    let rate = f32::from_bits(processor.playback_rate());
    let mut fraction = f32::from_bits(processor.cursor_fract());
    let mut steps = Vec::with_capacity(slots);
    for _ in 0..slots {
        fraction += rate;
        let mut carries = 0;
        while fraction >= 1.0 {
            carries += 1;
            fraction -= 1.0;
        }
        steps.push(Step { carries, fraction: fraction.to_bits() });
    }
    steps
}

fn blend(slot: &Slot) -> f32 {
    match *slot {
        Slot::Silence => 0.0,
        Slot::Blend { floor, ceiling, weight } => {
            let s1 = f32::from_bits(floor);
            let s2 = f32::from_bits(ceiling);
            s1 + (s2 - s1) * f32::from_bits(weight)
        }
    }
}

fn render(processor: &mut ElasticProcessor, slots: usize) -> Vec<f32> {
    let steps = schedule(processor, slots);
    processor.process(&steps).iter().map(blend).collect()
}

fn buffered(processor: &ElasticProcessor) -> usize {
    processor.get_buffer_health().samples
}

fn stored_rate(processor: &ElasticProcessor) -> f32 {
    f32::from_bits(processor.playback_rate())
}

#[test]
fn constants_are_the_bit_patterns_of_their_numbers() {
    assert_eq!(ZERO_FRACTION, 0.0f32.to_bits());
    assert_eq!(UNITY_RATE, 1.0f32.to_bits());
    assert_eq!(MIN_RATE, 0.1f32.to_bits());
    assert_eq!(MAX_RATE, 4.0f32.to_bits());
    assert_eq!(NOMINAL_SAMPLE_RATE, 44100);
}

#[test]
fn new_processor_state() {
    let processor = ElasticProcessor::new(16);
    assert_eq!(processor.playback_rate(), UNITY_RATE);
    assert_eq!(processor.cursor_fract(), ZERO_FRACTION);
    assert_eq!(buffered(&processor), 0);
}

#[test]
fn end_to_end_at_unity_rate() {
    let mut processor = ElasticProcessor::new(10);
    feed(&mut processor, &[1.0, 2.0, 3.0, 4.0, 5.0, 6.0, 7.0, 8.0, 9.0, 10.0]);
    let output = render(&mut processor, 5);
    assert_eq!(output, vec![1.0, 2.0, 3.0, 4.0, 5.0]);
    assert_eq!(buffered(&processor), 5);
    assert_eq!(processor.cursor_fract(), ZERO_FRACTION);
}

#[test]
fn underrun_renders_silence() {
    let mut processor = ElasticProcessor::new(10);
    let output = render(&mut processor, 4);
    assert_eq!(output, vec![0.0, 0.0, 0.0, 0.0]);
    assert_eq!(buffered(&processor), 0);
}

#[test]
fn a_single_sample_cannot_be_blended() {
    let mut processor = ElasticProcessor::new(10);
    feed(&mut processor, &[3.5]);
    let steps = schedule(&processor, 2);
    assert_eq!(processor.process(&steps), vec![Slot::Silence, Slot::Silence]);
    assert_eq!(buffered(&processor), 1);
    assert_eq!(processor.cursor_fract(), ZERO_FRACTION);
}

#[test]
fn render_of_no_slots_changes_nothing() {
    let mut processor = ElasticProcessor::new(4);
    feed(&mut processor, &[1.0, 2.0]);
    assert_eq!(processor.process(&[]), Vec::<Slot>::new());
    assert_eq!(buffered(&processor), 2);
}

#[test]
fn process_hands_out_brackets_and_weights() {
    let mut processor = ElasticProcessor::new(8);
    processor.push_data(&[10, 20, 30, 40]);
    let steps = [
        Step { carries: 0, fraction: 0x3F00_0000 },
        Step { carries: 2, fraction: 0x3E80_0000 },
        Step { carries: 5, fraction: 0 },
        Step { carries: 1, fraction: 0x3F00_0000 },
    ];
    let output = processor.process(&steps);
    assert_eq!(
        output,
        vec![
            Slot::Blend { floor: 10, ceiling: 20, weight: 0 },
            Slot::Blend { floor: 10, ceiling: 20, weight: 0x3F00_0000 },
            Slot::Blend { floor: 30, ceiling: 40, weight: 0x3E80_0000 },
            Slot::Silence,
        ]
    );
    assert_eq!(buffered(&processor), 0);
    assert_eq!(processor.cursor_fract(), 0);
}

#[test]
fn unity_rate_is_the_identity() {
    let mut processor = ElasticProcessor::new(64);
    let samples: Vec<f32> = (0..40).map(|i| (i as f32) * 0.37 - 5.0).collect();
    feed(&mut processor, &samples);
    let output = render(&mut processor, 39);
    assert_eq!(output, samples[..39].to_vec());
    assert_eq!(buffered(&processor), 1);
}

#[test]
fn unity_rate_goes_silent_on_the_last_sample() {
    let mut processor = ElasticProcessor::new(8);
    feed(&mut processor, &[1.0, 2.0, 3.0]);
    let output = render(&mut processor, 5);
    assert_eq!(output, vec![1.0, 2.0, 0.0, 0.0, 0.0]);
    assert_eq!(buffered(&processor), 1);
}

#[test]
fn double_rate_drains_in_half_the_slots() {
    let mut processor = ElasticProcessor::new(16);
    processor.set_playback_rate(2.0f32.to_bits());
    assert_eq!(stored_rate(&processor), 2.0);
    feed(&mut processor, &[1.0, 2.0, 3.0, 4.0, 5.0, 6.0, 7.0, 8.0]);
    let output = render(&mut processor, 4);
    assert_eq!(output, vec![1.0, 3.0, 5.0, 7.0]);
    assert_eq!(buffered(&processor), 0);
}

#[test]
fn double_rate_leaves_the_odd_sample() {
    let mut processor = ElasticProcessor::new(16);
    processor.set_playback_rate(2.0f32.to_bits());
    feed(&mut processor, &[1.0, 2.0, 3.0, 4.0, 5.0]);
    let output = render(&mut processor, 3);
    assert_eq!(output, vec![1.0, 3.0, 0.0]);
    assert_eq!(buffered(&processor), 1);
}

#[test]
fn half_rate_interpolates() {
    let mut processor = ElasticProcessor::new(16);
    processor.set_playback_rate(0.5f32.to_bits());
    feed(&mut processor, &[1.0, 2.0, 3.0, 4.0]);
    let output = render(&mut processor, 5);
    assert_eq!(output, vec![1.0, 1.5, 2.0, 2.5, 3.0]);
    assert_eq!(buffered(&processor), 2);
    assert_eq!(f32::from_bits(processor.cursor_fract()), 0.5);
}

#[test]
fn fraction_persists_between_calls() {
    let mut processor = ElasticProcessor::new(16);
    processor.set_playback_rate(0.25f32.to_bits());
    feed(&mut processor, &[0.0, 4.0, 8.0]);
    assert_eq!(render(&mut processor, 3), vec![0.0, 1.0, 2.0]);
    assert_eq!(f32::from_bits(processor.cursor_fract()), 0.75);
    assert_eq!(render(&mut processor, 3), vec![3.0, 4.0, 5.0]);
    assert_eq!(buffered(&processor), 2);
}

#[test]
fn push_data_drops_what_does_not_fit() {
    let mut processor = ElasticProcessor::new(3);
    feed(&mut processor, &[1.0, 2.0, 3.0, 4.0]);
    assert_eq!(buffered(&processor), 3);
    assert_eq!(render(&mut processor, 3), vec![1.0, 2.0, 0.0]);
}

#[test]
fn rate_within_range_is_stored() {
    let mut processor = ElasticProcessor::new(4);
    for rate in [0.1f32, 0.5, 1.0, 1.5, 3.999, 4.0] {
        processor.set_playback_rate(rate.to_bits());
        assert_eq!(stored_rate(&processor), rate);
    }
}

#[test]
fn rate_below_range_becomes_the_slowest() {
    let mut processor = ElasticProcessor::new(4);
    for rate in [0.0f32, -0.0, 0.05, 0.099999, -1.0, -4.0, f32::MIN, f32::NEG_INFINITY, 1e-40] {
        processor.set_playback_rate(rate.to_bits());
        assert_eq!(processor.playback_rate(), MIN_RATE);
    }
}

#[test]
fn rate_above_range_becomes_the_fastest() {
    let mut processor = ElasticProcessor::new(4);
    for rate in [4.0001f32, 5.0, 1000.0, f32::MAX, f32::INFINITY] {
        processor.set_playback_rate(rate.to_bits());
        assert_eq!(processor.playback_rate(), MAX_RATE);
    }
}

#[test]
fn rate_that_is_no_number_becomes_the_slowest() {
    let mut processor = ElasticProcessor::new(4);
    for bits in [f32::NAN.to_bits(), 0x7F80_0001, 0x7FFF_FFFF, 0xFFC0_0000, 0xFF80_0001] {
        processor.set_playback_rate(bits);
        assert_eq!(processor.playback_rate(), MIN_RATE);
    }
}

#[test]
fn rate_clamp_agrees_with_the_numbers() {
    let mut processor = ElasticProcessor::new(4);
    let mut bits: u32 = 0;
    loop {
        let rate = f32::from_bits(bits);
        processor.set_playback_rate(bits);
        let expected = rate.max(0.1).min(4.0);
        assert_eq!(processor.playback_rate(), expected.to_bits(), "rate bits {:#x}", bits);
        match bits.checked_add(0x0000_FFF1) {
            Some(next) => bits = next,
            None => break,
        }
    }
}

#[test]
fn set_playback_rate_leaves_the_buffer_alone() {
    let mut processor = ElasticProcessor::new(4);
    feed(&mut processor, &[1.0, 2.0, 3.0]);
    processor.set_playback_rate(3.0f32.to_bits());
    assert_eq!(buffered(&processor), 3);
    assert_eq!(processor.cursor_fract(), ZERO_FRACTION);
}

#[test]
fn buffer_health_counts_samples_at_the_nominal_rate() {
    let mut processor = ElasticProcessor::new(50000);
    assert_eq!(
        processor.get_buffer_health(),
        BufferHealth { samples: 0, sample_rate: 44100 }
    );
    let second: Vec<u32> = vec![0; 44100];
    processor.push_data(&second);
    let health = processor.get_buffer_health();
    assert_eq!(health, BufferHealth { samples: 44100, sample_rate: 44100 });
    assert_eq!(health.samples as f32 / health.sample_rate as f32, 1.0);
}

#[test]
fn rendering_in_two_calls_is_rendering_in_one() {
    let samples: Vec<f32> = (0..30).map(|i| (i * i) as f32 * 0.5).collect();
    let mut once = ElasticProcessor::new(32);
    let mut twice = ElasticProcessor::new(32);
    once.set_playback_rate(0.75f32.to_bits());
    twice.set_playback_rate(0.75f32.to_bits());
    feed(&mut once, &samples);
    feed(&mut twice, &samples);
    let whole = render(&mut once, 20);
    let mut parts = render(&mut twice, 7);
    parts.extend(render(&mut twice, 13));
    assert_eq!(whole, parts);
    assert_eq!(buffered(&once), buffered(&twice));
    assert_eq!(once.cursor_fract(), twice.cursor_fract());
    assert_eq!(buffered(&once), 15);
}

#[test]
fn blend_weighs_the_distance_from_the_floor() {
    let mut processor = ElasticProcessor::new(4);
    feed(&mut processor, &[2.0, 10.0]);
    let output = processor.process(&[
        Step { carries: 0, fraction: 0.25f32.to_bits() },
        Step { carries: 0, fraction: 0.75f32.to_bits() },
        Step { carries: 1, fraction: 0.0f32.to_bits() },
    ]);
    let values: Vec<f32> = output.iter().map(blend).collect();
    assert_eq!(values, vec![2.0, 4.0, 8.0]);
    assert_eq!(buffered(&processor), 1);
}
