use nibble_link::arq::{
    build_enquiry, frame_payload, recover, requested_ids, Action, Controller, SENTINEL,
};
use nibble_link::protocol::{FrameError, Packet, State, Transmission};
use nibble_link::symbols::{pack_nibbles, sample_stream};
use nibble_link::utilities::{ready_for_send, slice_data, start_and_end};

fn payload_of_len(len: usize) -> Vec<u8> {
    (0..len).map(|i| (i * 31 + 7) as u8).collect()
}

fn symbols_on_the_line(t: &Transmission) -> Vec<u8> {
    let writes = ready_for_send(t.to_binary());
    let mut clock = 8u8;
    sample_stream(&writes, &mut clock)
}

fn listener() -> Controller {
    Controller::new(Transmission::new(vec![], false))
}

fn feed_all(controller: &mut Controller, buffer: &mut Vec<u8>, symbols: &[u8]) -> Vec<Action> {
    let mut actions = Vec::new();
    for symbol in symbols {
        match controller.feed(buffer, *symbol) {
            Action::Idle => {}
            action => actions.push(action),
        }
    }
    actions
}

fn damage_items(symbols: &mut Vec<u8>, first_item: usize, count: usize) {
    for item in first_item..first_item + count {
        symbols[3 * item] ^= 0b0111;
    }
}

fn first_item_of_packet(t: &Transmission, index: usize) -> usize {
    let mut item = 4 + t.header.ecc.len();
    for packet in &t.packets[..index] {
        item += 7 + packet.data.len() + packet.ecc.len();
    }
    item
}

#[test]
fn frame_payload_cuts_130_bytes_into_three_packets() {
    let payload = payload_of_len(130);
    let t = frame_payload(payload.clone(), 60, false).unwrap();
    assert_eq!(t.packets.len(), 3);
    assert_eq!(t.packets.iter().map(|p| p.header.id).collect::<Vec<u16>>(), vec![1, 2, 3]);
    assert_eq!(t.header.total_packets, 3);
    assert!(!t.header.is_enquiry);
    assert_eq!(t.packets[0].data, payload[0..60].to_vec());
    assert_eq!(t.packets[1].data, payload[60..120].to_vec());
    assert_eq!(t.packets[2].data, payload[120..130].to_vec());
    assert_eq!(
        t.packets.iter().map(|p| (p.header.size, p.header.ecc_size)).collect::<Vec<(u16, u8)>>(),
        vec![(180, 90), (180, 90), (30, 15)]
    );
}

#[test]
fn frame_payload_refuses_what_does_not_fit() {
    assert_eq!(frame_payload(vec![1, 2, 3], 0, false), None);
    assert_eq!(frame_payload(vec![1, 2, 3], 100, false), None);
    assert_eq!(frame_payload(vec![0; 65535], 1, false), None);
    assert!(frame_payload(vec![1, 2, 3], 99, false).is_some());
    assert!(frame_payload(vec![1, 2, 3], 1, true).is_some());
    let empty = frame_payload(vec![], 48, false).unwrap();
    assert_eq!((empty.header.total_packets, empty.packets.len()), (0, 0));
}

#[test]
fn build_enquiry_names_the_ids_in_little_endian() {
    let enquiry = build_enquiry(vec![2], 48).unwrap();
    assert!(enquiry.header.is_enquiry);
    assert_eq!(enquiry.header.total_packets, 1);
    assert_eq!(enquiry.packets.len(), 1);
    assert_eq!(enquiry.packets[0].data, vec![2, 0]);
    assert_eq!(enquiry.packets[0].header.id, 1);
    assert_eq!(requested_ids(&recover(&enquiry.packets)), vec![2]);
}

#[test]
fn build_enquiry_refuses_an_odd_chunk_size() {
    assert_eq!(build_enquiry(vec![1, 2, 3], 47), None);
    assert_eq!(build_enquiry(vec![1, 2, 3], 0), None);
    assert_eq!(build_enquiry(vec![1, 2, 3], 100), None);
    assert!(build_enquiry(vec![1, 2, 3], 2).is_some());
}

#[test]
fn a_long_enquiry_names_its_ids_across_packets() {
    let ids: Vec<u16> = (1..=100).map(|i| i * 600).collect();
    let enquiry = build_enquiry(ids.clone(), 48).unwrap();
    assert_eq!(enquiry.packets.len(), 5);
    assert_eq!(requested_ids(&recover(&enquiry.packets)), ids);
    let small = build_enquiry(ids.clone(), 2).unwrap();
    assert_eq!(small.packets.len(), 100);
    assert_eq!(requested_ids(&recover(&small.packets)), ids);
}

#[test]
fn recover_leaves_unrecoverable_packets_out() {
    let t = frame_payload(payload_of_len(130), 60, false).unwrap();
    let mut packets = t.packets.clone();
    packets[1].ecc.clear();
    let recovered = recover(&packets);
    assert_eq!(
        recovered,
        vec![(1, t.packets[0].data.clone()), (3, t.packets[2].data.clone())]
    );
    assert_eq!(recover(&t.packets).len(), 3);
    assert_eq!(recover(&vec![]), vec![]);
}

#[test]
fn requested_ids_reads_every_packet_by_itself() {
    let recovered = vec![(1, vec![2, 0, 3]), (2, vec![4, 1]), (3, vec![]), (4, vec![9])];
    assert_eq!(requested_ids(&recovered), vec![2, 260]);
}

#[test]
fn an_undamaged_transfer_is_delivered() {
    let payload = payload_of_len(130);
    let t = frame_payload(payload.clone(), 60, false).unwrap();
    let symbols = symbols_on_the_line(&t);

    let decoded = Transmission::from_bytes(pack_nibbles(&symbols)).unwrap();
    assert_eq!(decoded, t);
    assert_eq!(
        recover(&decoded.packets).iter().map(|entry| entry.0).collect::<Vec<u16>>(),
        vec![1, 2, 3]
    );

    let mut receiver = listener();
    let mut buffer = Vec::new();
    let actions = feed_all(&mut receiver, &mut buffer, &symbols);
    assert_eq!(actions, vec![Action::Deliver(payload)]);
    assert_eq!(receiver.missing(), vec![]);
    assert_eq!(receiver.state(), State::Normal);
    assert!(buffer.is_empty());
}

#[test]
fn round_trip_for_many_payloads_and_chunk_sizes() {
    for len in [0usize, 1, 2, 47, 48, 49, 130, 1000] {
        for chunk_size in [1usize, 2, 7, 48, 60, 99] {
            if len > 200 && chunk_size < 7 {
                continue;
            }
            let payload = payload_of_len(len);
            let t = frame_payload(payload.clone(), chunk_size, false).unwrap();
            let symbols = symbols_on_the_line(&t);
            let (start, end) = start_and_end(&symbols).unwrap();
            assert_eq!((start, end + 3), (0, symbols.len()));
            let mut receiver = listener();
            assert_eq!(
                receiver.on_frame(&slice_data(symbols, start, end)),
                Action::Deliver(payload)
            );
        }
    }
}

#[test]
fn leading_noise_does_not_change_what_is_delivered() {
    let payload = payload_of_len(130);
    let t = frame_payload(payload.clone(), 60, false).unwrap();
    let symbols = symbols_on_the_line(&t);
    let mut noisy: Vec<u8> = Vec::new();
    for _ in 0..100 {
        noisy.push(8);
        noisy.push(0);
    }
    noisy.extend_from_slice(&[3, 12, 5, 10]);
    let noise = noisy.len();
    noisy.extend_from_slice(&symbols);
    assert_eq!(start_and_end(&noisy), Some((noise, noise + symbols.len() - 3)));
    assert_eq!(slice_data(noisy.clone(), noise, noise + symbols.len() - 3), symbols);

    let mut receiver = listener();
    let mut buffer = Vec::new();
    assert_eq!(feed_all(&mut receiver, &mut buffer, &noisy), vec![Action::Deliver(payload)]);
}

#[test]
fn a_lost_packet_is_asked_for_and_sent_again() {
    let payload = payload_of_len(130);
    let t = frame_payload(payload.clone(), 60, false).unwrap();
    let mut symbols = symbols_on_the_line(&t);
    damage_items(&mut symbols, first_item_of_packet(&t, 1) + 7, 60);

    let seen = Transmission::from_bytes(pack_nibbles(&symbols)).unwrap();
    assert_eq!(seen.packets.len(), 3);
    assert!(seen.packets[1].correct().is_err());

    let mut receiver = listener();
    let mut buffer = Vec::new();
    let actions = feed_all(&mut receiver, &mut buffer, &symbols);
    assert_eq!(actions, vec![Action::Enquire(vec![2])]);
    assert_eq!(receiver.state(), State::WaitingForResponse);
    assert_eq!(receiver.missing(), vec![2]);

    let enquiry = build_enquiry(vec![2], 48).unwrap();
    assert_eq!(requested_ids(&recover(&enquiry.packets)), vec![2]);

    let mut sender = Controller::new(t.clone());
    let mut sender_buffer = Vec::new();
    let answers = feed_all(&mut sender, &mut sender_buffer, &symbols_on_the_line(&enquiry));
    assert_eq!(answers.len(), 1);
    let reply = match &answers[0] {
        Action::Reply(reply) => reply.clone(),
        other => panic!("no reply: {:?}", other),
    };
    assert_eq!(reply.packets, vec![t.packets[1].clone()]);
    assert_eq!(reply.header, t.header);
    assert_eq!(sender.state(), State::Normal);

    let done = feed_all(&mut receiver, &mut buffer, &symbols_on_the_line(&reply));
    assert_eq!(done, vec![Action::Deliver(payload)]);
    assert_eq!(receiver.state(), State::Normal);
    assert_eq!(receiver.missing(), vec![]);
}

#[test]
fn a_transfer_completes_in_no_more_rounds_than_packets() {
    let payload = payload_of_len(50);
    let t = frame_payload(payload.clone(), 10, false).unwrap();
    assert_eq!(t.packets.len(), 5);
    let sender = Controller::new(t.clone());
    let mut receiver = listener();

    let mut first = t.clone();
    for lost in [0usize, 1, 3, 4] {
        first.packets[lost].ecc.clear();
    }
    let mut action = receiver.on_transmission(&first);
    let mut rounds = 0;
    while let Action::Enquire(ids) = action {
        rounds += 1;
        assert!(rounds <= 5);
        assert_eq!(receiver.state(), State::WaitingForResponse);
        let mut reply = sender.answer(&ids);
        assert_eq!(reply.packets.len(), ids.len());
        for packet in reply.packets.iter_mut().skip(1) {
            packet.data[0] ^= 0xFF;
            packet.data[1] ^= 0xFF;
            packet.data[2] ^= 0xFF;
            packet.data[3] ^= 0xFF;
            packet.data[4] ^= 0xFF;
            packet.data[5] ^= 0xFF;
            packet.data[6] ^= 0xFF;
            packet.data[7] ^= 0xFF;
        }
        action = receiver.on_transmission(&reply);
    }
    assert_eq!(rounds, 4);
    assert_eq!(action, Action::Deliver(payload));
    assert_eq!(receiver.state(), State::Normal);
}

#[test]
fn receive_fills_the_table_by_id() {
    let mut receiver = listener();
    let first = vec![(3u16, vec![30u8, 31]), (1, vec![10])];
    assert_eq!(receiver.receive(3, &first), Action::Enquire(vec![2]));
    assert_eq!(receiver.state(), State::WaitingForResponse);
    assert_eq!(receiver.missing(), vec![2]);
    assert_eq!(receiver.receive(3, &vec![]), Action::Enquire(vec![2]));
    assert_eq!(
        receiver.receive(3, &vec![(2, vec![20, 21, 22])]),
        Action::Deliver(vec![10, 20, 21, 22, 30, 31])
    );
    assert_eq!(receiver.state(), State::Normal);
    assert_eq!(receiver.missing(), vec![]);
}

#[test]
fn receive_writes_the_same_packet_twice_without_harm() {
    let mut receiver = listener();
    let entries = vec![(1u16, vec![5u8]), (1, vec![5]), (2, vec![6])];
    assert_eq!(receiver.receive(2, &entries), Action::Deliver(vec![5, 6]));
    assert_eq!(receiver.receive(2, &entries), Action::Deliver(vec![5, 6]));
    assert_eq!(receiver.receive(2, &vec![(2, vec![7])]), Action::Deliver(vec![5, 7]));
}

#[test]
fn receive_passes_over_ids_without_a_slot() {
    let mut receiver = listener();
    let entries = vec![(0u16, vec![1u8]), (4, vec![2]), (2, vec![3])];
    assert_eq!(receiver.receive(3, &entries), Action::Enquire(vec![1, 3]));
    assert_eq!(receiver.receive(0, &vec![]), Action::Deliver(vec![]));
}

#[test]
fn receive_starts_afresh_for_another_count() {
    let mut receiver = listener();
    assert_eq!(receiver.receive(2, &vec![(1, vec![1])]), Action::Enquire(vec![2]));
    assert_eq!(receiver.receive(3, &vec![(3, vec![3])]), Action::Enquire(vec![1, 2]));
}

#[test]
fn receive_aborts_on_the_reserved_id() {
    let mut receiver = listener();
    assert_eq!(SENTINEL, 65535);
    assert_eq!(receiver.receive(2, &vec![(1, vec![1])]), Action::Enquire(vec![2]));
    assert_eq!(receiver.receive(2, &vec![(2, vec![2]), (SENTINEL, vec![9])]), Action::Abort);
    assert_eq!(receiver.missing(), vec![2]);
    assert_eq!(receiver.state(), State::WaitingForResponse);
    assert_eq!(receiver.receive(SENTINEL, &vec![]), Action::Abort);
    assert_eq!(receiver.missing(), vec![2]);
}

#[test]
fn answer_selects_the_packets_that_are_asked_for() {
    let t = frame_payload(payload_of_len(50), 10, false).unwrap();
    let sender = Controller::new(t.clone());
    let reply = sender.answer(&vec![4, 2, 9, 0, 2]);
    assert_eq!(reply.header, t.header);
    assert_eq!(reply.packets, vec![t.packets[1].clone(), t.packets[3].clone()]);
    assert_eq!(sender.answer(&vec![]).packets, Vec::<Packet>::new());
    assert_eq!(sender.answer(&vec![1, 2, 3, 4, 5]), t);
}

#[test]
fn an_enquiry_changes_nothing_in_the_one_who_answers() {
    let t = frame_payload(payload_of_len(50), 10, false).unwrap();
    let mut peer = Controller::new(t.clone());
    assert_eq!(peer.receive(2, &vec![(1, vec![1])]), Action::Enquire(vec![2]));
    let enquiry = build_enquiry(vec![5, 1], 48).unwrap();
    let action = peer.on_transmission(&enquiry);
    assert_eq!(
        action,
        Action::Reply(Transmission {
            header: t.header.clone(),
            packets: vec![t.packets[0].clone(), t.packets[4].clone()],
        })
    );
    assert_eq!(peer.state(), State::WaitingForResponse);
    assert_eq!(peer.missing(), vec![2]);
}

#[test]
fn a_timeout_repeats_the_enquiry_while_waiting() {
    let mut receiver = listener();
    let mut buffer = vec![1, 2, 3];
    assert_eq!(receiver.on_timeout(&mut buffer), Action::Idle);
    assert_eq!(buffer, vec![1, 2, 3]);
    assert_eq!(receiver.receive(4, &vec![(2, vec![2])]), Action::Enquire(vec![1, 3, 4]));
    assert_eq!(receiver.on_timeout(&mut buffer), Action::Enquire(vec![1, 3, 4]));
    assert!(buffer.is_empty());
    assert_eq!(receiver.on_timeout(&mut buffer), Action::Enquire(vec![1, 3, 4]));
    assert_eq!(receiver.state(), State::WaitingForResponse);
}

#[test]
fn reset_empties_the_table() {
    let mut receiver = listener();
    assert_eq!(receiver.receive(2, &vec![(1, vec![1])]), Action::Enquire(vec![2]));
    receiver.reset();
    assert_eq!(receiver.state(), State::Normal);
    assert_eq!(receiver.missing(), vec![]);
    assert_eq!(receiver.receive(2, &vec![(2, vec![2])]), Action::Enquire(vec![1]));
}

#[test]
fn a_frame_without_a_transmission_is_dropped() {
    let mut receiver = listener();
    assert_eq!(receiver.receive(2, &vec![(1, vec![1])]), Action::Enquire(vec![2]));
    assert_eq!(
        receiver.on_frame(&vec![0, 9, 7, 0, 9, 1]),
        Action::Discard(FrameError::HeaderTruncated)
    );
    assert_eq!(receiver.on_frame(&vec![]), Action::Discard(FrameError::Empty));
    assert_eq!(
        receiver.on_frame(&vec![0, 8, 3, 0, 9, 1]),
        Action::Discard(FrameError::HeaderAbsent)
    );
    assert_eq!(receiver.state(), State::WaitingForResponse);
    assert_eq!(receiver.missing(), vec![2]);
}

#[test]
fn feed_keeps_symbols_until_a_frame_is_complete() {
    let mut receiver = listener();
    let mut buffer = Vec::new();
    for symbol in [5, 0, 9, 7, 0, 9] {
        assert_eq!(receiver.feed(&mut buffer, symbol), Action::Idle);
    }
    assert_eq!(buffer, vec![5, 0, 9, 7, 0, 9]);
    assert_eq!(receiver.feed(&mut buffer, 1), Action::Discard(FrameError::HeaderTruncated));
    assert!(buffer.is_empty());
}
