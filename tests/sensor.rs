use one_wire_thermo::ds18b20::{
    decode_reading, scratchpad_from_levels, temperature_from_scratchpad, Ds18b20, Temperature,
    POWER_ON_RAW, READING_LEVELS,
};
use one_wire_thermo::one_wire::{LineAction, OneWirePin};

/// Levels a present sensor answers to a scratchpad read: presence, then the
/// bytes least significant bit first.
fn sensor_levels(pad: &[u8]) -> Vec<bool> {
    let mut levels = vec![false];
    for b in pad {
        for i in 0..8 {
            levels.push((b >> i) & 1 == 1);
        }
    }
    levels
}

/// Performs a plan against a simulated sensor that answers each sample from `answers`.
fn perform(actions: &[LineAction], answers: &[bool]) -> Vec<bool> {
    let mut levels = Vec::new();
    for a in actions {
        if *a == LineAction::Sample {
            levels.push(answers[levels.len()]);
        }
    }
    levels
}

/// The command bytes a device reads from the write slots of a plan.
fn commands(actions: &[LineAction]) -> Vec<u8> {
    let mut bits = Vec::new();
    let mut i = 0;
    while i < actions.len() {
        match &actions[i..] {
            [LineAction::DriveLow, LineAction::WaitUs(low), LineAction::Release, LineAction::WaitUs(_), ..]
                if !matches!(actions.get(i + 4), Some(LineAction::Sample)) && *low != 480 =>
            {
                bits.push(*low < 15);
                i += 4;
            }
            _ => i += 1,
        }
    }
    bits.chunks(8)
        .map(|c| c.iter().enumerate().fold(0u8, |acc, (k, b)| acc | ((*b as u8) << k)))
        .collect()
}

fn degrees(t: Temperature) -> f32 {
    t.raw as f32 / 16.0
}

#[test]
fn power_on_scratchpad_decodes_to_85() {
    let t = temperature_from_scratchpad(&[0x50, 0x05, 0x4B, 0x46, 0x7F, 0xFF, 0x0C, 0x10, 0x1C]);
    assert_eq!(t.raw, 1360);
    assert_eq!(degrees(t), 85.0);
    assert!(t.is_power_on_value());
    assert_eq!(t.raw, POWER_ON_RAW);
}

#[test]
fn mid_range_scratchpad_decodes_to_25_0625() {
    let t = temperature_from_scratchpad(&[0x91, 0x01, 0, 0, 0, 0, 0, 0, 0]);
    assert_eq!(t.raw, 401);
    assert_eq!(degrees(t), 25.0625);
    assert!(!t.is_power_on_value());
    assert_eq!(t.whole_degrees(), 25);
    assert_eq!(t.fraction_sixteenths(), 1);
}

#[test]
fn sign_bits_are_not_interpreted() {
    // -0.5 degrees in the sensor's two's complement form reads as a large positive value.
    let t = temperature_from_scratchpad(&[0xF8, 0xFF]);
    assert_eq!(t.raw, 0xFFF8);
    assert_eq!(t.whole_degrees(), 4095);
    assert_eq!(t.fraction_sixteenths(), 8);
}

#[test]
fn measure_temperature_plans_reset_skip_rom_convert() {
    let mut sensor = Ds18b20::new(OneWirePin::new());
    sensor.measure_temperature();
    let actions = sensor.take_actions();
    assert_eq!(actions.len(), 6 + 32 + 32);
    assert_eq!(&actions[..2], &[LineAction::DriveLow, LineAction::WaitUs(480)]);
    assert_eq!(commands(&actions), vec![0xCC, 0x44]);
    assert!(sensor.actions().is_empty());
}

#[test]
fn read_temperature_plans_reset_skip_rom_read_and_nine_bytes() {
    let mut sensor = Ds18b20::new(OneWirePin::new());
    sensor.read_temperature();
    let actions = sensor.actions().clone();
    assert_eq!(actions.len(), 6 + 64 + 72 * 6);
    assert_eq!(commands(&actions[..70]), vec![0xCC, 0xBE]);
    let samples = actions.iter().filter(|a| **a == LineAction::Sample).count();
    assert_eq!(samples, READING_LEVELS);
}

#[test]
fn end_to_end_reading_is_25_0625() {
    let mut sensor = Ds18b20::new(OneWirePin::new());
    sensor.read_temperature();
    let answers = sensor_levels(&[0x91, 0x01, 0, 0, 0, 0, 0, 0, 0]);
    let levels = perform(&sensor.take_actions(), &answers);
    let t = decode_reading(&levels).unwrap();
    assert_eq!(degrees(t), 25.0625);
}

#[test]
fn read_right_after_conversion_gives_power_on_value() {
    let mut sensor = Ds18b20::new(OneWirePin::new());
    sensor.measure_temperature();
    sensor.read_temperature();
    let actions = sensor.take_actions();
    // the conversion has not finished: the scratchpad still holds its power-on value
    let mut answers = vec![false];
    answers.extend(sensor_levels(&[0x50, 0x05, 0x4B, 0x46, 0x7F, 0xFF, 0x0C, 0x10, 0x1C]));
    let levels = perform(&actions, &answers);
    assert_eq!(levels.len(), READING_LEVELS + 1);
    let t = decode_reading(&levels[1..]).unwrap();
    assert!(t.is_power_on_value());
    assert_eq!(degrees(t), 85.0);
}

#[test]
fn scratchpad_from_levels_gives_all_nine_bytes() {
    let pad = [0x91, 0x01, 0x4B, 0x46, 0x7F, 0xFF, 0x0C, 0x10, 0x1C];
    assert_eq!(scratchpad_from_levels(&sensor_levels(&pad)), Some(pad.to_vec()));
}

#[test]
fn reading_of_wrong_length_is_refused() {
    let levels = sensor_levels(&[0x91, 0x01]);
    assert_eq!(decode_reading(&levels), None);
    assert_eq!(scratchpad_from_levels(&[]), None);
}

#[test]
fn absent_sensor_reads_all_ones() {
    // nobody answers: every sample is high, presence included
    let levels = vec![true; READING_LEVELS];
    let t = decode_reading(&levels).unwrap();
    assert_eq!(t.raw, 0xFFFF);
}
