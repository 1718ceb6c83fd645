use nibble_link::controls::{EOT, SOH, SOT, SOTX};
use nibble_link::protocol::{
    plain_items, FrameError, Packet, PacketHeader, ProtocolDecoder, Transmission,
    TransmissionHeader, Unrecoverable, MAX_CHUNK, MAX_PACKETS,
};
use nibble_link::symbols::{encode_stream, pack_nibbles};
use nibble_link::utilities::make_transmission;

fn block_of(packet: &Packet) -> Vec<u8> {
    let mut block = packet.header.to_vec();
    block.extend_from_slice(&packet.data);
    block.extend_from_slice(&packet.ecc);
    block
}

fn packed_stream(items: &Vec<(u8, bool)>) -> Vec<u8> {
    pack_nibbles(&encode_stream(items))
}

#[test]
fn packet_header_new_and_empty() {
    let header = PacketHeader::new(180, 2, 90);
    assert_eq!((header.size, header.id, header.ecc_size), (180, 2, 90));
    assert_eq!(PacketHeader::empty(), PacketHeader { size: 0, id: 0, ecc_size: 0 });
}

#[test]
fn packet_header_to_vec_is_seven_bytes() {
    let header = PacketHeader::new(0x0123, 0xABCD, 0x5A);
    assert_eq!(header.to_vec(), vec![SOH, 0x01, 0x23, 0xAB, 0xCD, 0x5A, SOTX]);
}

#[test]
fn packet_header_to_binary_flags_the_two_markers() {
    let header = PacketHeader::new(0x0123, 0xABCD, 0x5A);
    assert_eq!(
        header.to_binary(),
        vec![
            (SOH, true),
            (0x01, false),
            (0x23, false),
            (0xAB, false),
            (0xCD, false),
            (0x5A, false),
            (SOTX, true)
        ]
    );
}

#[test]
fn plain_items_carry_no_flag() {
    assert_eq!(plain_items(&vec![1, 2, 7]), vec![(1, false), (2, false), (7, false)]);
}

#[test]
fn packet_new_sets_size_and_parity_length() {
    let cases = [(0usize, 0usize), (1, 1), (2, 3), (3, 4), (10, 15), (48, 72), (60, 90), (99, 148)];
    for (len, parity) in cases {
        let chunk: Vec<u8> = (0..len).map(|i| (i * 7 + 1) as u8).collect();
        let packet = Packet::new(chunk.clone(), 5);
        assert_eq!(packet.header.size as usize, 3 * len);
        assert_eq!(packet.header.id, 5);
        assert_eq!(packet.header.ecc_size as usize, parity);
        assert_eq!(packet.ecc.len(), parity);
        assert_eq!(packet.data, chunk);
        assert!(packet.is_decodable());
    }
    assert_eq!(MAX_CHUNK, 99);
    assert_eq!(MAX_PACKETS, 65534);
}

#[test]
fn packet_new_takes_its_parity_from_the_code() {
    let chunk: Vec<u8> = (0..10).collect();
    let packet = Packet::new(chunk.clone(), 3);
    let mut covered = vec![SOH, 0, 30, 0, 3, 15, SOTX];
    covered.extend_from_slice(&chunk);
    let expected = reed_solomon::Encoder::new(15).encode(&covered);
    assert_eq!(packet.ecc, expected.ecc().to_vec());
    assert_ne!(packet.ecc, covered);
    assert!(packet.ecc.iter().any(|b| *b != 0));
}

#[test]
fn packet_to_binary_is_header_data_parity() {
    let packet = Packet::new(vec![9, 8], 1);
    let mut expected = packet.header.to_binary();
    expected.push((9, false));
    expected.push((8, false));
    for byte in &packet.ecc {
        expected.push((*byte, false));
    }
    assert_eq!(packet.to_binary(), expected);
    assert_eq!(packet.to_binary().len(), 7 + 2 + 3);
}

#[test]
fn packet_set_size_changes_the_size_only() {
    let mut packet = Packet::new(vec![1, 2, 3, 4], 2);
    let before = packet.clone();
    packet.set_size(99);
    assert_eq!(packet.header, PacketHeader { size: 99, id: 2, ecc_size: 6 });
    assert_eq!(packet.data, before.data);
    assert_eq!(packet.ecc, before.ecc);
}

#[test]
fn correct_returns_clean_data_with_zero_errors() {
    for len in [0usize, 1, 2, 10, 60, 99] {
        let chunk: Vec<u8> = (0..len).map(|i| (i * 13 + 5) as u8).collect();
        let packet = Packet::new(chunk.clone(), 7);
        assert_eq!(packet.correct(), Ok((chunk, 0)));
    }
}

#[test]
fn correct_repairs_up_to_half_the_parity() {
    let chunk: Vec<u8> = (100..110).collect();
    let clean = Packet::new(chunk.clone(), 4);
    assert_eq!(clean.header.ecc_size, 15);
    for errors in 1..=7usize {
        let mut packet = clean.clone();
        for i in 0..errors {
            packet.data[i] ^= 0xFF;
        }
        let (data, count) = packet.correct().unwrap();
        assert_eq!(data, chunk);
        assert!(1 <= count && count <= 7);
        assert_eq!(count, errors);
    }
}

#[test]
fn correct_repairs_errors_in_the_parity() {
    let chunk: Vec<u8> = (0..60).collect();
    let mut packet = Packet::new(chunk.clone(), 2);
    for i in 0..45 {
        packet.ecc[2 * i] = packet.ecc[2 * i].wrapping_add(1);
    }
    assert_eq!(packet.correct(), Ok((chunk, 45)));
}

#[test]
fn correct_gives_up_one_error_past_the_bound() {
    let chunk: Vec<u8> = (100..110).collect();
    let mut packet = Packet::new(chunk, 4);
    for i in 0..8 {
        packet.data[i] ^= 0xFF;
    }
    assert_eq!(packet.correct(), Err(Unrecoverable));

    let mut small = Packet::new(vec![1, 2], 1);
    assert_eq!(small.header.ecc_size, 3);
    small.data[0] ^= 1;
    assert_eq!(small.correct(), Ok((vec![1, 2], 1)));
    small.data[1] ^= 1;
    assert_eq!(small.correct(), Err(Unrecoverable));
}

#[test]
fn correct_refuses_a_block_it_cannot_hand_to_the_decoder() {
    let chunk: Vec<u8> = (0..60).collect();
    let clean = Packet::new(chunk, 2);

    let mut short = clean.clone();
    short.ecc.clear();
    assert!(!short.is_decodable());
    assert_eq!(short.correct(), Err(Unrecoverable));

    let mut long = clean.clone();
    long.data.extend_from_slice(&[0; 99]);
    assert!(!long.is_decodable());
    assert_eq!(long.correct(), Err(Unrecoverable));

    let mut wide = clean.clone();
    wide.header.ecc_size = 171;
    wide.ecc = vec![0; 171];
    assert!(!wide.is_decodable());
    assert_eq!(wide.correct(), Err(Unrecoverable));
}

#[test]
fn settle_cuts_the_data_out_of_a_repaired_block() {
    let packet = Packet::new(vec![1, 2, 3], 9);
    assert_eq!(packet.header.ecc_size, 4);
    let mut fixed = block_of(&packet);
    assert_eq!(fixed.len(), 14);
    fixed[7] = 40;
    fixed[8] = 50;
    fixed[9] = 60;
    assert_eq!(packet.settle(Some((fixed, 2))), Ok((vec![40, 50, 60], 2)));
}

#[test]
fn settle_gives_up_without_a_block_of_the_right_length() {
    let packet = Packet::new(vec![1, 2, 3], 9);
    assert_eq!(packet.settle(None), Err(Unrecoverable));
    assert_eq!(packet.settle(Some((vec![0; 13], 0))), Err(Unrecoverable));
    assert_eq!(packet.settle(Some((vec![0; 15], 0))), Err(Unrecoverable));
    let mut broken = packet.clone();
    broken.header.ecc_size = 200;
    assert_eq!(broken.settle(Some((vec![0; 14], 0))), Err(Unrecoverable));
}

#[test]
fn from_binary_reads_header_and_body() {
    let chunks = vec![vec![SOH, 0, 6, 0, 5, 3], vec![SOTX, 10, 20, 1, 2, 3]];
    assert_eq!(
        Packet::from_binary(chunks),
        vec![Packet {
            header: PacketHeader { size: 6, id: 5, ecc_size: 3 },
            data: vec![10, 20],
            ecc: vec![1, 2, 3],
        }]
    );
}

#[test]
fn from_binary_reads_every_header_chunk() {
    let chunks = vec![
        vec![SOH, 0, 3, 0, 1, 1],
        vec![SOTX, 10, 77],
        vec![SOH, 1, 2, 2, 1, 0],
        vec![SOTX; 100],
        vec![EOT],
    ];
    let packets = Packet::from_binary(chunks);
    assert_eq!(packets.len(), 2);
    assert_eq!(packets[0].header, PacketHeader { size: 3, id: 1, ecc_size: 1 });
    assert_eq!((packets[0].data.clone(), packets[0].ecc.clone()), (vec![10], vec![77]));
    assert_eq!(packets[1].header, PacketHeader { size: 258, id: 513, ecc_size: 0 });
    assert_eq!(packets[1].data.len(), 86);
    assert_eq!(packets[1].ecc.len(), 13);
}

#[test]
fn from_binary_passes_over_what_is_no_packet() {
    assert_eq!(Packet::from_binary(vec![]), vec![]);
    assert_eq!(Packet::from_binary(vec![vec![SOH, 0, 6, 0, 5, 3]]), vec![]);
    assert_eq!(Packet::from_binary(vec![vec![SOTX, 0, 6, 0, 5, 3], vec![SOTX, 1, 2, 3]]), vec![]);
    assert_eq!(Packet::from_binary(vec![vec![SOH, 0, 6, 0, 5], vec![SOTX, 1, 2, 3]]), vec![]);
    assert_eq!(Packet::from_binary(vec![vec![SOH, 0, 30, 0, 5, 3], vec![SOTX, 1, 2, 3]]), vec![]);
    let exact = Packet::from_binary(vec![vec![SOH, 0, 9, 0, 5, 0], vec![SOTX, 1, 2, 3]]);
    assert_eq!(exact.len(), 1);
    assert_eq!((exact[0].data.clone(), exact[0].ecc.clone()), (vec![1, 2, 3], vec![]));
}

#[test]
fn transmission_header_new_protects_the_count() {
    let header = TransmissionHeader::new(3, false);
    assert_eq!((header.is_enquiry, header.total_packets), (false, 3));
    assert_eq!(header.ecc, reed_solomon::Encoder::new(4).encode(&[0, 3]).ecc().to_vec());
    assert_eq!(header.ecc.len(), 4);
    assert_ne!(header.ecc, vec![0, 3]);
    let enquiry = TransmissionHeader::new(0x0102, true);
    assert!(enquiry.is_enquiry);
    assert_eq!(enquiry.ecc, reed_solomon::Encoder::new(4).encode(&[1, 2]).ecc().to_vec());
}

#[test]
fn transmission_header_to_binary_starts_with_the_flagged_start() {
    let header =
        TransmissionHeader { is_enquiry: true, total_packets: 0x0102, ecc: vec![9, 8, 7, 6] };
    assert_eq!(
        header.to_binary(),
        vec![
            (SOT, true),
            (1, false),
            (1, false),
            (2, false),
            (9, false),
            (8, false),
            (7, false),
            (6, false)
        ]
    );
}

#[test]
fn transmission_new_counts_its_packets() {
    let packets = make_transmission(vec![vec![1; 5], vec![2; 5], vec![3; 2]]);
    assert_eq!(packets.iter().map(|p| p.header.id).collect::<Vec<u16>>(), vec![1, 2, 3]);
    let t = Transmission::new(packets.clone(), false);
    assert_eq!(t.header.total_packets, 3);
    assert!(!t.header.is_enquiry);
    assert_eq!(t.packets, packets);
    let empty = Transmission::new(vec![], true);
    assert_eq!(empty.header.total_packets, 0);
    assert!(empty.header.is_enquiry);
}

#[test]
fn transmission_set_packets_keeps_the_header() {
    let mut t = Transmission::new(make_transmission(vec![vec![1; 5], vec![2; 5]]), false);
    let header = t.header.clone();
    let other = vec![Packet::new(vec![4, 4], 2)];
    t.set_packets(other.clone());
    assert_eq!(t.header, header);
    assert_eq!(t.packets, other);
}

#[test]
fn to_binary_of_an_empty_transmission() {
    let t = Transmission::new(vec![], false);
    assert_eq!(t.header.ecc, vec![0, 0, 0, 0]);
    assert_eq!(
        t.to_binary(),
        vec![0x09, 0x78, 0x08, 0x08, 0x08, 0x08, 0x08, 0x08, 0x08, 0x08, 0x08, 0x08, 0x09, 0x10]
    );
}

#[test]
fn to_binary_is_the_packed_stream_of_the_items() {
    let t = Transmission::new(make_transmission(vec![vec![10, 20, 30], vec![40]]), false);
    let mut items = t.header.to_binary();
    for packet in &t.packets {
        items.extend(packet.to_binary());
    }
    items.push((EOT, true));
    assert_eq!(t.to_binary(), packed_stream(&items));
    assert_eq!(items.len(), 8 + (7 + 3 + 4) + (7 + 1 + 1) + 1);
}

#[test]
fn from_bytes_reads_back_what_to_binary_wrote() {
    for chunks in [
        vec![],
        vec![vec![1u8]],
        vec![vec![1, 2], vec![3]],
        vec![vec![0; 60], vec![0; 60], vec![0; 10]],
        vec![vec![7; 99], vec![4; 99], vec![1; 99], vec![2; 98]],
    ] {
        for is_enquiry in [false, true] {
            let t = Transmission::new(make_transmission(chunks.clone()), is_enquiry);
            assert_eq!(Transmission::from_bytes(t.to_binary()), Ok(t));
        }
    }
}

#[test]
fn decoder_keeps_flags_on_markers_only() {
    let items = vec![(SOT, true), (9, true), (SOH, false), (SOTX, true), (0, true), (EOT, true)];
    let decoder = ProtocolDecoder::new(packed_stream(&items));
    assert_eq!(decoder.len(), 6);
    assert_eq!(decoder.get(0), Some((SOT, true)));
    assert_eq!(decoder.get(1), Some((9, false)));
    assert_eq!(decoder.get(2), Some((SOH, false)));
    assert_eq!(decoder.get(3), Some((SOTX, true)));
    assert_eq!(decoder.get(4), Some((0, false)));
    assert_eq!(decoder.get(5), Some((EOT, true)));
    assert_eq!(decoder.get(6), None);
}

#[test]
fn decoder_drops_one_trailing_zero() {
    let odd = vec![(SOT, true), (5, false), (EOT, true)];
    let decoder = ProtocolDecoder::new(packed_stream(&odd));
    assert_eq!(decoder.len(), 3);
    assert_eq!(decoder.get(2), Some((EOT, true)));

    let zeros = vec![(SOT, true), (0, false), (0, false)];
    let decoder = ProtocolDecoder::new(packed_stream(&zeros));
    assert_eq!(decoder.len(), 3);
    assert_eq!(decoder.get(2), Some((0, false)));

    let even = vec![(SOT, true), (EOT, true)];
    assert_eq!(ProtocolDecoder::new(packed_stream(&even)).len(), 2);
    assert_eq!(ProtocolDecoder::new(vec![]).len(), 0);
}

#[test]
fn decode_reads_the_header_fields() {
    let items = vec![
        (SOT, true),
        (0xFF, false),
        (0x12, false),
        (0x34, false),
        (1, false),
        (2, false),
        (EOT, true),
    ];
    let t = ProtocolDecoder::new(packed_stream(&items)).decode().unwrap();
    assert!(t.header.is_enquiry);
    assert_eq!(t.header.total_packets, 0x1234);
    assert_eq!(t.header.ecc, vec![1, 2]);
    assert_eq!(t.packets, vec![]);
}

#[test]
fn decode_leaves_the_decoder_as_it_was() {
    let t = Transmission::new(make_transmission(vec![vec![1, 2], vec![3]]), false);
    let mut decoder = ProtocolDecoder::new(t.to_binary());
    let len = decoder.len();
    assert_eq!(decoder.decode(), Ok(t.clone()));
    assert_eq!(decoder.len(), len);
    assert_eq!(decoder.decode(), Ok(t));
}

#[test]
fn decode_without_a_byte_is_empty() {
    assert_eq!(ProtocolDecoder::new(vec![]).decode(), Err(FrameError::Empty));
    assert_eq!(Transmission::from_bytes(vec![]), Err(FrameError::Empty));
}

#[test]
fn decode_without_a_start_has_no_header() {
    let items = vec![(SOH, true), (2, false), (EOT, true)];
    assert_eq!(
        ProtocolDecoder::new(packed_stream(&items)).decode(),
        Err(FrameError::HeaderAbsent)
    );
    assert_eq!(Transmission::from_bytes(vec![0, 0]), Err(FrameError::HeaderAbsent));
}

#[test]
fn decode_with_a_short_first_chunk_has_a_truncated_header() {
    let items = vec![(SOT, true), (0, false), (0, false), (EOT, true)];
    assert_eq!(
        ProtocolDecoder::new(packed_stream(&items)).decode(),
        Err(FrameError::HeaderTruncated)
    );
    let bare = vec![(SOT, true), (EOT, true)];
    assert_eq!(
        ProtocolDecoder::new(packed_stream(&bare)).decode(),
        Err(FrameError::HeaderTruncated)
    );
}

#[test]
fn decode_without_an_end_chunk_holds_no_packet() {
    let items = vec![(SOT, true), (0, false), (0, false), (1, false), (5, false)];
    let t = ProtocolDecoder::new(packed_stream(&items)).decode().unwrap();
    assert_eq!(t.header.total_packets, 1);
    assert_eq!(t.header.ecc, vec![5]);
    assert_eq!(t.packets, vec![]);
}
