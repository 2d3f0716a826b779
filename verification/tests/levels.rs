use audio_splitter::meters::{load_level, push_level, store_level, LevelMeters, HISTORY_LEN};
use audio_splitter::peak::{peak_level_from_f32le, peak_level_from_queue_prefix_f32le};
use audio_splitter::single::Single;
use std::collections::VecDeque;

fn single(value: f32) -> Single {
    Single { bits: value.to_bits() }
}

fn bytes_of(samples: &[f32]) -> Vec<u8> {
    let mut bytes = Vec::new();
    for sample in samples {
        bytes.extend_from_slice(&sample.to_le_bytes());
    }
    bytes
}

fn interesting() -> Vec<f32> {
    let mut values = vec![
        0.0,
        -0.0,
        1.0,
        -1.0,
        0.5,
        -0.25,
        0.999_999_94,
        1.000_000_1,
        f32::MIN_POSITIVE,
        f32::MAX,
        f32::MIN,
        f32::INFINITY,
        f32::NEG_INFINITY,
        f32::NAN,
        72.0,
        119.999_99,
        120.0,
        300.0,
    ];
    for bits in [1u32, 0x007f_ffff, 0x0080_0000, 0x0080_0001, 0x8000_0001, 0xffc0_0001, 0x7f80_0001] {
        values.push(f32::from_bits(bits));
    }
    values
}

#[test]
fn comparisons_agree_with_the_machine() {
    for a in interesting() {
        assert_eq!(single(a).is_finite(), a.is_finite());
        if !a.is_nan() {
            assert_eq!(single(a).abs().bits, a.abs().to_bits());
        }
        for b in interesting() {
            assert_eq!(single(a).less_than(single(b)), a < b);
            assert_eq!(single(a).at_least(single(b)), a >= b);
        }
    }
}

#[test]
fn clamping_agrees_with_the_machine() {
    for a in interesting() {
        assert_eq!(single(a).clamp_to_unit().bits, a.clamp(0.0, 1.0).to_bits());
    }
    assert_eq!(single(-0.0).clamp_to_unit(), single(-0.0));
    assert!(f32::from_bits(single(f32::NAN).clamp_to_unit().bits).is_nan());
}

#[test]
fn whole_numbers_are_exact() {
    for n in [0u16, 1, 2, 3, 14, 20, 72, 78, 88, 120, 220, 240, 300, 1000, 65535] {
        assert_eq!(Single::whole(n).bits, (n as f32).to_bits());
    }
    assert_eq!(Single::zero().bits, 0);
}

#[test]
fn bytes_are_little_endian() {
    assert_eq!(Single::from_le_bytes(0, 0, 0x80, 0x3f), single(1.0));
    assert_eq!(Single::from_le_bytes(1, 2, 3, 4).bits, 0x0403_0201);
}

#[test]
fn peak_is_the_largest_magnitude() {
    assert_eq!(peak_level_from_f32le(&bytes_of(&[0.1, -0.75, 0.5])), single(0.75));
    assert_eq!(peak_level_from_f32le(&bytes_of(&[0.1, -3.0, 0.5])), single(1.0));
}

#[test]
fn peak_ignores_what_is_not_finite() {
    let bytes = bytes_of(&[f32::NAN, 0.25, f32::INFINITY, f32::NEG_INFINITY]);
    assert_eq!(peak_level_from_f32le(&bytes), single(0.25));
    assert_eq!(peak_level_from_f32le(&bytes_of(&[f32::NAN])), single(0.0));
}

#[test]
fn peak_of_short_buffers() {
    assert_eq!(peak_level_from_f32le(&[]), single(0.0));
    assert_eq!(peak_level_from_f32le(&[0, 0, 0x80]), single(0.0));
    let mut bytes = bytes_of(&[0.5]);
    bytes.extend_from_slice(&[0xff, 0xff, 0x7f]);
    assert_eq!(peak_level_from_f32le(&bytes), single(0.5));
}

#[test]
fn peak_agrees_with_the_machine() {
    let samples = interesting();
    for start in 0..samples.len() {
        let part = &samples[start..];
        let mut peak = 0.0f32;
        for value in part {
            if value.is_finite() {
                peak = peak.max(value.abs());
            }
        }
        assert_eq!(peak_level_from_f32le(&bytes_of(part)).bits, peak.clamp(0.0, 1.0).to_bits());
    }
}

#[test]
fn queue_prefix_is_metered_like_a_buffer() {
    let bytes = bytes_of(&[0.1, 0.2, 0.9]);
    let queue: VecDeque<u8> = VecDeque::from(bytes.clone());
    assert_eq!(peak_level_from_queue_prefix_f32le(&queue, 8), single(0.2));
    assert_eq!(peak_level_from_queue_prefix_f32le(&queue, 11), single(0.2));
    assert_eq!(peak_level_from_queue_prefix_f32le(&queue, 12), single(0.9));
    assert_eq!(peak_level_from_queue_prefix_f32le(&queue, 12), peak_level_from_f32le(&bytes));
    assert_eq!(peak_level_from_queue_prefix_f32le(&queue, 3), single(0.0));
    assert_eq!(peak_level_from_queue_prefix_f32le(&queue, 0), single(0.0));
}

#[test]
fn missing_bytes_count_as_silence() {
    let queue: VecDeque<u8> = VecDeque::from(bytes_of(&[0.5]));
    assert_eq!(peak_level_from_queue_prefix_f32le(&queue, 400), single(0.5));
    assert_eq!(peak_level_from_queue_prefix_f32le(&VecDeque::new(), 400), single(0.0));
    let mut cut = VecDeque::from(bytes_of(&[0.5]));
    cut.pop_back();
    let expected = f32::from_le_bytes([0, 0, 0, 0]);
    assert_eq!(peak_level_from_queue_prefix_f32le(&cut, 4), single(expected));
}

#[test]
fn slots_are_clamped_both_ways() {
    let mut slot = 7u32;
    store_level(&mut slot, single(2.0));
    assert_eq!(slot, 1.0f32.to_bits());
    store_level(&mut slot, single(-2.0));
    assert_eq!(slot, 0);
    assert_eq!(load_level(&3.0f32.to_bits()), single(1.0));
    assert_eq!(load_level(&0.25f32.to_bits()), single(0.25));
}

#[test]
fn meters_show_what_was_set() {
    let mut meters = LevelMeters::new();
    assert_eq!(meters.get(), (single(0.0), single(0.0)));
    meters.set_input(single(0.5));
    assert_eq!(meters.get(), (single(0.5), single(0.0)));
    meters.set_output(single(9.0));
    assert_eq!(meters.get(), (single(0.5), single(1.0)));
    meters.reset();
    assert_eq!(meters.get(), (single(0.0), single(0.0)));
    meters.set_input(single(f32::NAN));
    meters.reset();
    meters.reset();
    assert_eq!(meters.get(), (single(0.0), single(0.0)));
}

#[test]
fn meters_never_leave_the_unit_range() {
    let mut meters = LevelMeters::new();
    for value in interesting() {
        meters.set_input(single(value));
        let shown = f32::from_bits(meters.get().0.bits);
        assert!(value.is_nan() || (0.0..=1.0).contains(&shown));
        assert_eq!(single(shown).clamp_to_unit(), meters.get().0);
    }
}

#[test]
fn a_short_history_grows() {
    let mut history = VecDeque::new();
    push_level(&mut history, single(0.5));
    push_level(&mut history, single(5.0));
    assert_eq!(history, VecDeque::from(vec![single(0.5), single(1.0)]));
}

#[test]
fn a_full_history_slides() {
    let mut history: VecDeque<Single> = VecDeque::new();
    for i in 0..(HISTORY_LEN + 20) {
        push_level(&mut history, single(i as f32 / 1000.0));
        assert_eq!(history.len(), (i + 1).min(HISTORY_LEN));
    }
    assert_eq!(history[0], single(0.02));
    assert_eq!(history[HISTORY_LEN - 1], single(0.199));
}
