use nibble_link::controls::{is_control_value, EOT, SOH, SOT, SOTX};
use nibble_link::symbols::{
    decode_stream, decode_triplet, encode_byte, encode_stream, pack_nibbles, sample_stream,
    sample_symbol, strobe_expand,
};
use nibble_link::utilities::{nibbles_to_bytes, ready_for_send};

#[test]
fn encode_then_decode_gives_the_byte_back() {
    for byte in 0..=255u8 {
        for &flag in &[false, true] {
            for clock in 0..=1u8 {
                let (symbols, next) = encode_byte(byte, flag, clock);
                assert_eq!(next, 1 - clock);
                assert_eq!(decode_triplet(symbols[0], symbols[1], symbols[2]), (byte, flag));
            }
        }
    }
}

#[test]
fn markers_are_the_four_framing_bytes() {
    assert_eq!((SOT, EOT, SOH, SOTX), (7, 4, 1, 2));
    for byte in 0..=255u8 {
        assert_eq!(is_control_value(byte), byte == 7 || byte == 4 || byte == 1 || byte == 2);
    }
}

#[test]
fn encode_byte_places_the_bits() {
    assert_eq!(encode_byte(0b1011_0110, false, 0), ([5, 13, 4], 1));
    assert_eq!(encode_byte(0b1011_0110, true, 1), ([13, 5, 13], 0));
    assert_eq!(encode_byte(0xFF, true, 0), ([7, 15, 7], 1));
    assert_eq!(encode_byte(0x00, false, 1), ([8, 0, 8], 0));
}

#[test]
fn markers_encode_to_their_patterns_in_both_phases() {
    assert_eq!(encode_byte(SOT, true, 0).0, [0, 9, 7]);
    assert_eq!(encode_byte(SOT, true, 1).0, [8, 1, 15]);
    assert_eq!(encode_byte(EOT, true, 0).0, [0, 9, 1]);
    assert_eq!(encode_byte(EOT, true, 1).0, [8, 1, 9]);
    assert_eq!(encode_byte(SOH, true, 0).0, [0, 8, 3]);
    assert_eq!(encode_byte(SOTX, true, 0).0, [0, 8, 5]);
}

#[test]
fn clock_bits_alternate_within_a_triplet() {
    for byte in 0..=255u8 {
        for clock in 0..=1u8 {
            let (s, _) = encode_byte(byte, byte % 3 == 0, clock);
            assert_eq!(s[0] >> 3, clock);
            assert_eq!(s[1] >> 3, 1 - clock);
            assert_eq!(s[2] >> 3, clock);
        }
    }
}

#[test]
fn clock_bits_alternate_along_a_stream() {
    let items: Vec<(u8, bool)> = (0..=255u8).map(|b| (b, b % 5 == 0)).collect();
    let symbols = encode_stream(&items);
    assert_eq!(symbols.len(), 3 * items.len());
    for (k, symbol) in symbols.iter().enumerate() {
        assert!(*symbol < 16);
        assert_eq!((*symbol >> 3) as usize, k % 2);
    }
}

#[test]
fn decode_does_not_read_clock_bits() {
    for byte in [0u8, 1, 7, 0x5A, 0xA5, 0xFF] {
        let (s, _) = encode_byte(byte, true, 0);
        let expected = (byte, true);
        assert_eq!(decode_triplet(s[0] ^ 8, s[1], s[2]), expected);
        assert_eq!(decode_triplet(s[0], s[1] ^ 8, s[2]), expected);
        assert_eq!(decode_triplet(s[0], s[1], s[2] ^ 8), expected);
        assert_eq!(decode_triplet(s[0] & 7, s[1] & 7, s[2] & 7), expected);
    }
}

#[test]
fn encode_stream_starts_with_clock_zero() {
    let symbols = encode_stream(&vec![(SOT, true), (0xB6, false), (EOT, true)]);
    assert_eq!(symbols, vec![0, 9, 7, 13, 5, 12, 0, 9, 1]);
    assert_eq!(encode_stream(&vec![]), Vec::<u8>::new());
}

#[test]
fn pack_nibbles_puts_two_symbols_in_a_byte() {
    assert_eq!(pack_nibbles(&vec![0, 9, 7]), vec![0x09, 0x70]);
    assert_eq!(pack_nibbles(&vec![5, 13, 4, 0, 9, 1]), vec![0x5D, 0x40, 0x91]);
    assert_eq!(pack_nibbles(&vec![]), Vec::<u8>::new());
    assert_eq!(pack_nibbles(&vec![0x0F]), vec![0xF0]);
}

#[test]
fn nibbles_to_bytes_reads_two_bytes_from_three() {
    assert_eq!(nibbles_to_bytes([0x5D, 0x40, 0x91]), vec![(0xB6, false), (EOT, true)]);
    assert_eq!(nibbles_to_bytes([0x09, 0x70, 0x00]), vec![(SOT, true), (0, false)]);
    assert_eq!(nibbles_to_bytes([0x81, 0xF7, 0xF7]), vec![(SOT, true), (0xFF, true)]);
}

#[test]
fn decode_stream_fills_the_last_group_with_zeros() {
    assert_eq!(decode_stream(&vec![0x09, 0x70]), vec![(SOT, true), (0, false)]);
    assert_eq!(decode_stream(&vec![0x09]), vec![(4, false), (0, false)]);
    assert_eq!(decode_stream(&vec![]), Vec::<(u8, bool)>::new());
    assert_eq!(
        decode_stream(&vec![0x5D, 0x40, 0x91, 0x09, 0x70]),
        vec![(0xB6, false), (EOT, true), (SOT, true), (0, false)]
    );
}

#[test]
fn stream_round_trip_adds_one_zero_item_to_an_odd_count() {
    let even: Vec<(u8, bool)> = vec![(SOT, true), (200, false), (0, false), (EOT, true)];
    assert_eq!(decode_stream(&pack_nibbles(&encode_stream(&even))), even);
    let odd: Vec<(u8, bool)> = vec![(SOT, true), (200, false), (EOT, true)];
    let mut expected = odd.clone();
    expected.push((0, false));
    assert_eq!(decode_stream(&pack_nibbles(&encode_stream(&odd))), expected);
}

#[test]
fn strobe_expand_writes_the_inverted_clock_first() {
    assert_eq!(strobe_expand(0b0101), [0b1101, 0b0101]);
    assert_eq!(strobe_expand(0b1101), [0b0101, 0b1101]);
    assert_eq!(strobe_expand(0), [8, 0]);
}

#[test]
fn ready_for_send_writes_each_symbol_twice() {
    assert_eq!(ready_for_send(vec![0x09]), vec![8, 0, 1, 9]);
    assert_eq!(ready_for_send(vec![0x78, 0x5D]), vec![15, 7, 0, 8, 13, 5, 5, 13]);
    assert_eq!(ready_for_send(vec![]), Vec::<u8>::new());
}

#[test]
fn ready_for_send_agrees_with_strobe_expand_on_encoded_streams() {
    let items: Vec<(u8, bool)> = (0..100u8).map(|b| (b.wrapping_mul(37), false)).collect();
    let symbols = encode_stream(&items);
    let writes = ready_for_send(pack_nibbles(&symbols));
    assert_eq!(writes.len(), 2 * symbols.len());
    for (k, symbol) in symbols.iter().enumerate() {
        let pair = strobe_expand(*symbol);
        assert_eq!(&writes[2 * k..2 * k + 2], &pair[..]);
    }
}

#[test]
fn sample_symbol_takes_a_reading_on_a_clock_edge_only() {
    let mut clock = 8u8;
    assert_eq!(sample_symbol(0b1101, &mut clock), None);
    assert_eq!(clock, 8);
    assert_eq!(sample_symbol(0b0101, &mut clock), Some(0b0101));
    assert_eq!(clock, 0);
    assert_eq!(sample_symbol(0b0111, &mut clock), None);
    assert_eq!(sample_symbol(0xF9, &mut clock), Some(9));
    assert_eq!(clock, 8);
}

#[test]
fn sampling_the_writes_gives_the_symbols_back() {
    for count in [0usize, 1, 2, 3, 10, 11] {
        let items: Vec<(u8, bool)> = (0..count).map(|i| ((i * 29 + 3) as u8, i == 0)).collect();
        let symbols = encode_stream(&items);
        let writes = ready_for_send(pack_nibbles(&symbols));
        let mut clock = 8u8;
        assert_eq!(sample_stream(&writes, &mut clock), symbols);
    }
}
