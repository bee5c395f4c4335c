use m4againrs::bits::{adjust_gain_value, write_bits_u8};

fn read_bits_u8_for_test(data: &[u8], byte_offset: usize, bit_offset: u8) -> u8 {
    if bit_offset == 0 {
        data[byte_offset]
    } else if byte_offset + 1 < data.len() {
        (data[byte_offset] << bit_offset) | (data[byte_offset + 1] >> (8 - bit_offset))
    } else {
        data[byte_offset] << bit_offset
    }
}

#[test]
fn write_bits_u8_overwrites_aligned_byte() {
    let mut data = [0xAA, 0x55];

    write_bits_u8(&mut data, 0, 0, 0x3C);

    assert_eq!(data, [0x3C, 0x55]);
}

#[test]
fn write_bits_u8_preserves_surrounding_bits_when_unaligned() {
    let mut data = [0b1010_1010, 0b0101_0101];
    let original = data;

    write_bits_u8(&mut data, 0, 3, 0b1100_0011);

    assert_eq!(read_bits_u8_for_test(&data, 0, 3), 0b1100_0011);
    assert_eq!(data[0] & 0b1110_0000, original[0] & 0b1110_0000);
    assert_eq!(data[1] & 0b0000_0111, original[1] & 0b0000_0111);
}

#[test]
fn write_bits_u8_handles_trailing_partial_byte() {
    let mut data = [0b1110_0001];

    write_bits_u8(&mut data, 0, 5, 0b1010_0000);

    assert_eq!(data[0] & 0b1111_1000, 0b1110_0000);
    assert_eq!(data[0] & 0b0000_0111, 0b0000_0101);
}

#[test]
fn adjust_gain_value_saturates_to_aac_gain_range() {
    assert_eq!(adjust_gain_value(120, 5), 125);
    assert_eq!(adjust_gain_value(2, -10), 0);
    assert_eq!(adjust_gain_value(250, 20), 255);
}

#[test]
fn write_bits_u8_unaligned_exact_bytes() {
    let mut data = [0b1010_1010, 0b0101_0101];

    write_bits_u8(&mut data, 0, 3, 0b1100_0011);

    assert_eq!(data, [0b1011_1000, 0b0111_0101]);
}

#[test]
fn write_bits_u8_past_end_leaves_buffer_unchanged() {
    let mut data = [0x12, 0x34];

    write_bits_u8(&mut data, 2, 4, 0xFF);
    write_bits_u8(&mut data, 7, 0, 0xFF);

    assert_eq!(data, [0x12, 0x34]);
}

#[test]
fn write_bits_u8_touches_only_two_bytes_in_longer_buffer() {
    let mut data = [0x11, 0x22, 0x33, 0x44];

    write_bits_u8(&mut data, 1, 4, 0xAB);

    assert_eq!(data, [0x11, 0x2A, 0xB3, 0x44]);
}

#[test]
fn write_bits_u8_empty_buffer() {
    let mut data: [u8; 0] = [];

    write_bits_u8(&mut data, 0, 3, 0xFF);

    assert_eq!(data.len(), 0);
}

#[test]
fn read_after_write_returns_value_at_every_offset() {
    for bit_offset in 0u8..8 {
        let mut data = [0x5A, 0xC3, 0x0F];
        write_bits_u8(&mut data, 1, bit_offset, 0x96);
        assert_eq!(read_bits_u8_for_test(&data, 1, bit_offset), 0x96);
        assert_eq!(data[0], 0x5A);
    }
}

#[test]
fn write_back_of_read_value_is_identity() {
    for bit_offset in 0u8..8 {
        let original = [0x5A, 0xC3, 0x0F];
        let mut data = original;
        let current = read_bits_u8_for_test(&data, 0, bit_offset);
        write_bits_u8(&mut data, 0, bit_offset, current);
        assert_eq!(data, original);
    }
}

#[test]
fn second_write_wins() {
    let mut twice = [0x00, 0xFF];
    write_bits_u8(&mut twice, 0, 6, 0x12);
    write_bits_u8(&mut twice, 0, 6, 0xED);
    let mut once = [0x00, 0xFF];
    write_bits_u8(&mut once, 0, 6, 0xED);
    assert_eq!(twice, once);
}

#[test]
fn adjust_gain_value_zero_steps_keeps_gain() {
    for current in [0u8, 1, 100, 254, 255] {
        assert_eq!(adjust_gain_value(current, 0), current);
    }
}

#[test]
fn adjust_gain_value_extreme_steps() {
    assert_eq!(adjust_gain_value(0, i32::MIN), 0);
    assert_eq!(adjust_gain_value(255, i32::MIN), 0);
    assert_eq!(adjust_gain_value(0, i32::MAX), 255);
    assert_eq!(adjust_gain_value(0, 255), 255);
    assert_eq!(adjust_gain_value(255, -255), 0);
}

#[test]
fn adjust_gain_value_round_trip_without_saturation() {
    let up = adjust_gain_value(100, 7);
    assert_eq!(up, 107);
    assert_eq!(adjust_gain_value(up, -7), 100);
}

#[test]
fn adjust_gain_value_monotone_in_steps() {
    let mut last = 0u8;
    for steps in -300i32..300 {
        let gain = adjust_gain_value(40, steps);
        assert!(gain >= last);
        last = gain;
    }
}

#[test]
fn adjust_gain_value_composes_without_saturation() {
    let first = adjust_gain_value(50, 20);
    assert_eq!(adjust_gain_value(first, -100), adjust_gain_value(50, -80));
}

#[test]
fn write_bits_u8_past_end_accepts_any_bit_offset() {
    let mut data = [0x12, 0x34];

    write_bits_u8(&mut data, 2, 200, 0xFF);

    assert_eq!(data, [0x12, 0x34]);
}

#[test]
fn adjust_gain_value_saturates_on_every_step_count() {
    assert_eq!(adjust_gain_value(1, i32::MAX), 255);
    assert_eq!(adjust_gain_value(255, i32::MAX), 255);
    assert_eq!(adjust_gain_value(255, i32::MIN), 0);
}

#[test]
fn adjust_gain_value_same_sign_steps_compose() {
    let big = (1i32 << 30) - 1;
    assert_eq!(adjust_gain_value(adjust_gain_value(255, big), big), 255);
    assert_eq!(adjust_gain_value(adjust_gain_value(200, 30), 40), adjust_gain_value(200, 70));
    assert_eq!(adjust_gain_value(adjust_gain_value(20, -30), -40), adjust_gain_value(20, -70));
}

#[test]
fn read_after_write_on_trailing_byte_keeps_leading_bits() {
    for bit_offset in 1u8..8 {
        let mut data = [0x0F, 0x5A];
        write_bits_u8(&mut data, 1, bit_offset, 0xB7);
        assert_eq!(read_bits_u8_for_test(&data, 1, bit_offset), 0xB7 & (0xFFu8 << bit_offset));
        assert_eq!(data[0], 0x0F);
    }
}

#[test]
fn write_back_of_read_value_is_identity_on_trailing_byte() {
    for bit_offset in 0u8..8 {
        let original = [0x0F, 0x5A];
        let mut data = original;
        let current = read_bits_u8_for_test(&data, 1, bit_offset);
        write_bits_u8(&mut data, 1, bit_offset, current);
        assert_eq!(data, original);
    }
}
