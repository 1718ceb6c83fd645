//! The byte form read back: what a transmission is cut into on receipt, and
//! the proof that decoding inverts encoding.

use crate::controls::{is_marker, EOT, SOH, SOT, SOTX};
use crate::protocol::{
    body_chunks, deserialize_spec, lead_items, packet_at, packets_items, parse_packet,
    parse_packets, parse_upto, plain, received_items, split_spec, FrameError, PacketView,
    TransmissionHeaderView, TransmissionView,
};
use crate::symbols::{
    decode_spec, decode_stream_spec, encode_spec, encode_stream_spec, lemma_codec_round_trip,
    lemma_stream_round_trip, stream_symbol,
};
use crate::utilities::{
    end_at, frame_bounds, join_u16, lemma_split_join, split_u16_spec, start_at,
};
use vstd::prelude::*;

verus! {

/// The chunk that holds a transmission header.
pub open spec fn lead_chunk(h: TransmissionHeaderView) -> Seq<u8> {
    seq![SOT, if h.is_enquiry { 1u8 } else { 0u8 }] + split_u16_spec(h.total_packets) + h.ecc
}

/// The chunk that holds a packet header: `SOH` and the five header bytes.
pub open spec fn head_chunk(p: PacketView) -> Seq<u8> {
    seq![SOH] + split_u16_spec(p.header.size) + split_u16_spec(p.header.id) + seq![
        p.header.ecc_size,
    ]
}

/// The chunk that holds a packet body: `SOTX`, data, parity.
pub open spec fn body_chunk(p: PacketView) -> Seq<u8> {
    seq![SOTX] + p.data + p.ecc
}

/// The chunks of a sequence of packets: header chunk and body chunk of
/// each, in order.
pub open spec fn packet_chunks(packets: Seq<PacketView>) -> Seq<Seq<u8>> {
    Seq::new(
        2 * packets.len(),
        |k: int|
            if k % 2 == 0 {
                head_chunk(packets[k / 2])
            } else {
                body_chunk(packets[k / 2])
            },
    )
}

/// The chunks of a transmission: its header, its packets, the end marker.
pub open spec fn chunks_of(t: TransmissionView) -> Seq<Seq<u8>> {
    seq![lead_chunk(t.header)] + packet_chunks(t.packets) + seq![seq![EOT]]
}

/// Every flagged item carries a byte of the framing vocabulary.
pub open spec fn well_flagged(items: Seq<(u8, bool)>) -> bool {
    forall|i: int| 0 <= i < items.len() ==> ((#[trigger] items[i]).1 ==> is_marker(items[i].0))
}

/// The patterns that the synchroniser looks for are the codec's symbols for
/// the flagged `SOT` and the flagged `EOT`, in the two clock phases.
pub proof fn lemma_marker_patterns()
    ensures
        encode_spec(SOT, true, 0) == seq![0b0000u8, 0b1001u8, 0b0111u8],
        encode_spec(SOT, true, 1) == seq![0b1000u8, 0b0001u8, 0b1111u8],
        encode_spec(EOT, true, 0) == seq![0b0000u8, 0b1001u8, 0b0001u8],
        encode_spec(EOT, true, 1) == seq![0b1000u8, 0b0001u8, 0b1001u8],
{
    assert((0u8 << 3) | (7u8 >> 5) == 0 && ((0u8 ^ 1) << 3) | ((7u8 >> 2) & 0b111) == 9 && (0u8
        << 3) | ((7u8 << 1) & 0b110) | 1u8 == 7) by (bit_vector);
    assert((1u8 << 3) | (7u8 >> 5) == 8 && ((1u8 ^ 1) << 3) | ((7u8 >> 2) & 0b111) == 1 && (1u8
        << 3) | ((7u8 << 1) & 0b110) | 1u8 == 15) by (bit_vector);
    assert((0u8 << 3) | (4u8 >> 5) == 0 && ((0u8 ^ 1) << 3) | ((4u8 >> 2) & 0b111) == 9 && (0u8
        << 3) | ((4u8 << 1) & 0b110) | 1u8 == 1) by (bit_vector);
    assert((1u8 << 3) | (4u8 >> 5) == 8 && ((1u8 ^ 1) << 3) | ((4u8 >> 2) & 0b111) == 1 && (1u8
        << 3) | ((4u8 << 1) & 0b110) | 1u8 == 9) by (bit_vector);
    assert(encode_spec(SOT, true, 0) =~= seq![0b0000u8, 0b1001u8, 0b0111u8]);
    assert(encode_spec(SOT, true, 1) =~= seq![0b1000u8, 0b0001u8, 0b1111u8]);
    assert(encode_spec(EOT, true, 0) =~= seq![0b0000u8, 0b1001u8, 0b0001u8]);
    assert(encode_spec(EOT, true, 1) =~= seq![0b1000u8, 0b0001u8, 0b1001u8]);
}

/// A flagged byte followed by unflagged ones adds one chunk to a split.
pub proof fn lemma_split_segment(x: Seq<(u8, bool)>, first: u8, rest: Seq<u8>)
    ensures
        split_spec(x + seq![(first, true)] + plain(rest)) == split_spec(x).push(seq![first] + rest),
    decreases rest.len(),
{
    let items = x + seq![(first, true)] + plain(rest);
    if rest.len() == 0 {
        assert(items.drop_last() =~= x);
        assert(items.last() == (first, true));
        assert(seq![first] + rest =~= seq![first]);
    } else {
        let shorter = rest.drop_last();
        lemma_split_segment(x, first, shorter);
        assert(items.drop_last() =~= x + seq![(first, true)] + plain(shorter));
        assert(items.last() == (rest.last(), false));
        let before = split_spec(items.drop_last());
        assert(before.drop_last() =~~= split_spec(x));
        assert(before.last().push(rest.last()) =~= seq![first] + rest);
        assert(split_spec(items) =~~= split_spec(x).push(seq![first] + rest));
    }
}

/// The items of a packet add its header chunk and its body chunk to a
/// split.
pub proof fn lemma_split_packet(x: Seq<(u8, bool)>, p: PacketView)
    ensures
        split_spec(x + p.items()) == split_spec(x).push(head_chunk(p)).push(body_chunk(p)),
{
    let five = split_u16_spec(p.header.size) + split_u16_spec(p.header.id) + seq![
        p.header.ecc_size,
    ];
    lemma_split_segment(x, SOH, five);
    let y = x + seq![(SOH, true)] + plain(five);
    lemma_split_segment(y, SOTX, p.data + p.ecc);
    assert(x + p.items() =~= y + seq![(SOTX, true)] + plain(p.data + p.ecc));
    assert(seq![SOH] + five =~= head_chunk(p));
    assert(seq![SOTX] + (p.data + p.ecc) =~= body_chunk(p));
}

/// The items of a sequence of packets add the chunks of the packets to a
/// split.
pub proof fn lemma_split_packets(x: Seq<(u8, bool)>, packets: Seq<PacketView>)
    ensures
        packets.len() > 0 ==> packets_items(packets) == packets_items(packets.drop_last())
            + packets.last().items(),
        packets.len() == 0 ==> packets_items(packets) == Seq::<(u8, bool)>::empty(),
        split_spec(x + packets_items(packets)) == split_spec(x) + packet_chunks(packets),
    decreases packets.len(),
{
    let f = |p: PacketView| p.items();
    if packets.len() == 0 {
        assert(packets.map_values(f) =~= seq![]);
        assert(packets_items(packets) =~= seq![]);
        assert(x + packets_items(packets) =~= x);
        assert(split_spec(x) + packet_chunks(packets) =~~= split_spec(x));
    } else {
        let init = packets.drop_last();
        let p = packets.last();
        assert(packets.map_values(f) =~= init.map_values(f).push(p.items()));
        init.map_values(f).lemma_flatten_push(p.items());
        lemma_split_packets(x, init);
        lemma_split_packet(x + packets_items(init), p);
        assert(x + packets_items(packets) =~= (x + packets_items(init)) + p.items());
        assert(split_spec(x) + packet_chunks(packets) =~~= (split_spec(x) + packet_chunks(
            init,
        )).push(head_chunk(p)).push(body_chunk(p)));
    }
}

/// A transmission's items split into its chunks.
#[verifier::spinoff_prover]
pub proof fn lemma_split_transmission(t: TransmissionView)
    ensures
        split_spec(t.items()) == chunks_of(t),
{
    let h = t.header;
    let enquiry: u8 = if h.is_enquiry { 1u8 } else { 0u8 };
    let tail = seq![enquiry] + split_u16_spec(h.total_packets) + h.ecc;
    let none = Seq::<(u8, bool)>::empty();
    lemma_split_segment(none, SOT, tail);
    assert(none + seq![(SOT, true)] + plain(tail) =~= lead_items(h));
    assert(seq![SOT] + tail =~= lead_chunk(h));
    assert(split_spec(none) =~~= seq![]);
    lemma_split_packets(lead_items(h), t.packets);
    let x = lead_items(h) + packets_items(t.packets);
    lemma_split_segment(x, EOT, Seq::<u8>::empty());
    assert(x + seq![(EOT, true)] + plain(Seq::<u8>::empty()) =~= t.items());
    assert(seq![EOT] + Seq::<u8>::empty() =~= seq![EOT]);
    assert(split_spec(t.items()) =~~= chunks_of(t));
}

/// The chunks of a packet parse to the packet, where its size field gives
/// the length of its data; and a body chunk begins no packet.
pub proof fn lemma_parse_own_chunks(p: PacketView, next: Seq<u8>)
    requires
        p.framed(),
    ensures
        parse_packet(head_chunk(p), body_chunk(p)) == Some(p),
        parse_packet(body_chunk(p), next) is None,
{
    lemma_split_join(p.header.size);
    lemma_split_join(p.header.id);
    let head = head_chunk(p);
    let body = body_chunk(p);
    assert(head.len() == 6);
    assert(head[1] == (p.header.size >> 8) as u8 && head[2] == (p.header.size & 0xFF) as u8);
    assert(head[3] == (p.header.id >> 8) as u8 && head[4] == (p.header.id & 0xFF) as u8);
    let cut = p.header.size / 3 + 1;
    assert(body.subrange(1, cut as int) =~= p.data);
    assert(body.subrange(cut as int, body.len() as int) =~= p.ecc);
    assert(body[0] == SOTX);
}

/// The chunks of a sequence of packets parse to the packets.
#[verifier::spinoff_prover]
pub proof fn lemma_parse_packet_chunks(packets: Seq<PacketView>, n: int)
    requires
        forall|i: int| 0 <= i < packets.len() ==> (#[trigger] packets[i]).framed(),
        0 <= n <= packets.len(),
    ensures
        parse_upto(packet_chunks(packets), 2 * n) == packets.take(n),
    decreases n,
{
    let chunks = packet_chunks(packets);
    if n > 0 {
        lemma_parse_packet_chunks(packets, n - 1);
        let p = packets[n - 1];
        assert(chunks[2 * n - 2] == head_chunk(p));
        assert(chunks[2 * n - 1] == body_chunk(p));
        if 2 * n < chunks.len() {
            lemma_parse_own_chunks(p, chunks[2 * n]);
        } else {
            lemma_parse_own_chunks(p, seq![]);
        }
        assert(packet_at(chunks, 2 * n - 1) is None);
        assert(packet_at(chunks, 2 * n - 2) == Some(p));
        assert(parse_upto(chunks, 2 * n) == parse_upto(chunks, 2 * n - 1));
        assert(parse_upto(chunks, 2 * n - 1) == parse_upto(chunks, 2 * n - 2).push(p));
        assert(packets.take(n) =~= packets.take(n - 1).push(p));
    } else {
        assert(packets.take(0) =~= seq![]);
    }
}

/// In the items of packets only markers are flagged.
pub proof fn lemma_packets_well_flagged(packets: Seq<PacketView>)
    ensures
        well_flagged(packets_items(packets)),
    decreases packets.len(),
{
    lemma_split_packets(Seq::empty(), packets);
    if packets.len() > 0 {
        lemma_packets_well_flagged(packets.drop_last());
        let p = packets.last();
        let before = packets_items(packets.drop_last());
        let all = packets_items(packets);
        assert forall|i: int| 0 <= i < all.len() && (#[trigger] all[i]).1 implies is_marker(
            all[i].0,
        ) by {
            if i < before.len() {
                assert(all[i] == before[i]);
            } else {
                let k = i - before.len();
                assert(all[i] == p.items()[k]);
            }
        }
    }
}

/// In the items of a transmission only markers are flagged; the first
/// item is the flagged `SOT` and the last one the flagged `EOT`.
pub proof fn lemma_items_shape(t: TransmissionView)
    ensures
        well_flagged(t.items()),
        t.items().len() >= 5,
        t.items()[0] == (SOT, true),
        t.items().last() == (EOT, true),
{
    lemma_packets_well_flagged(t.packets);
    let lead = lead_items(t.header);
    let mid = packets_items(t.packets);
    let all = t.items();
    assert forall|i: int| 0 <= i < all.len() && (#[trigger] all[i]).1 implies is_marker(
        all[i].0,
    ) by {
        if i < lead.len() {
            assert(all[i] == lead[i]);
        } else if i < lead.len() + mid.len() {
            assert(all[i] == mid[i - lead.len()]);
        }
    }
    assert(all[0] == lead[0]);
}

/// The packed stream of a transmission, read back, gives the items that
/// went in.
#[verifier::spinoff_prover]
pub proof fn lemma_read_back(t: TransmissionView)
    ensures
        received_items(t.packed()) == t.items(),
{
    let items = t.items();
    lemma_items_shape(t);
    lemma_stream_round_trip(items);
    let decoded = decode_stream_spec(t.packed());
    let masked = Seq::new(
        decoded.len(),
        |i: int| (decoded[i].0, decoded[i].1 && is_marker(decoded[i].0)),
    );
    assert forall|i: int| 0 <= i < decoded.len() implies masked[i] == decoded[i] by {
        if i < items.len() {
            assert(decoded[i] == items[i]);
        }
    }
    assert(masked =~= decoded);
    if items.len() % 2 == 0 {
        assert(masked.last() == items.last());
    } else {
        assert(masked.drop_last() =~= items);
    }
}

/// The items of a transmission hold the transmission, where the size field
/// of every packet gives the length of its data.
#[verifier::spinoff_prover]
pub proof fn lemma_items_hold_transmission(t: TransmissionView)
    requires
        forall|i: int| 0 <= i < t.packets.len() ==> (#[trigger] t.packets[i]).framed(),
    ensures
        deserialize_spec(t.items()) == Ok::<TransmissionView, FrameError>(t),
{
    lemma_split_transmission(t);
    let chunks = chunks_of(t);
    let h = t.header;
    let lead = lead_chunk(h);
    assert(chunks.len() == 2 + 2 * t.packets.len());
    assert(chunks[0] == lead);
    assert(body_chunks(chunks) =~~= packet_chunks(t.packets));
    lemma_parse_packet_chunks(t.packets, t.packets.len() as int);
    assert(t.packets.take(t.packets.len() as int) =~= t.packets);
    assert(parse_packets(packet_chunks(t.packets)) == t.packets);
    lemma_split_join(h.total_packets);
    assert(lead[0] == SOT);
    assert(lead.len() >= 4);
    assert(lead[2] == (h.total_packets >> 8) as u8 && lead[3] == (h.total_packets & 0xFF) as u8);
    assert(join_u16(lead[2], lead[3]) == h.total_packets);
    assert(lead.skip(4) =~= h.ecc);
    assert(1u8 & 1 == 1 && 0u8 & 1 == 0) by (bit_vector);
    assert((lead[1] & 1 == 1) == h.is_enquiry);
    let got = deserialize_spec(t.items());
    assert(got is Ok);
    assert(got->Ok_0.header == h);
    assert(got->Ok_0.packets == t.packets);
}

/// Decoding inverts encoding: the packed stream of a transmission, read
/// back, holds the transmission, where the size field of every packet gives
/// the length of its data.
pub proof fn lemma_wire_round_trip(t: TransmissionView)
    requires
        forall|i: int| 0 <= i < t.packets.len() ==> (#[trigger] t.packets[i]).framed(),
    ensures
        deserialize_spec(received_items(t.packed())) == Ok::<TransmissionView, FrameError>(t),
{
    lemma_read_back(t);
    lemma_items_hold_transmission(t);
}

/// The symbol stream of a transmission is one frame: its Start marker is
/// at the first symbol and its End marker at the last three.
#[verifier::spinoff_prover]
pub proof fn lemma_stream_is_frame(t: TransmissionView)
    ensures
        encode_stream_spec(t.items()).len() >= 6,
        frame_bounds(
            encode_stream_spec(t.items()),
            0,
            encode_stream_spec(t.items()).len() - 3,
        ),
{
    let items = t.items();
    let s = encode_stream_spec(items);
    lemma_items_shape(t);
    let n: int = items.len() as int;
    let last: int = n - 1;
    assert((0u8 << 3) | (7u8 >> 5) == 0 && ((0u8 ^ 1) << 3) | ((7u8 >> 2) & 0b111) == 9 && (0u8
        << 3) | ((7u8 << 1) & 0b110) | 1u8 == 7) by (bit_vector);
    assert((0u8 << 3) | (4u8 >> 5) == 0 && ((0u8 ^ 1) << 3) | ((4u8 >> 2) & 0b111) == 9 && (0u8
        << 3) | ((4u8 << 1) & 0b110) | 1u8 == 1) by (bit_vector);
    assert((1u8 << 3) | (4u8 >> 5) == 8 && ((1u8 ^ 1) << 3) | ((4u8 >> 2) & 0b111) == 1 && (1u8
        << 3) | ((4u8 << 1) & 0b110) | 1u8 == 9) by (bit_vector);
    assert(s[0] == stream_symbol(items, 0));
    assert(s[1] == stream_symbol(items, 1));
    assert(s[2] == stream_symbol(items, 2));
    assert(start_at(s, 0));
    let e: int = 3 * last;
    assert(s[e] == stream_symbol(items, e));
    assert(s[e + 1] == stream_symbol(items, e + 1));
    assert(s[e + 2] == stream_symbol(items, e + 2));
    assert(items[e / 3] == (EOT, true));
    assert(items[(e + 1) / 3] == (EOT, true));
    assert(items[(e + 2) / 3] == (EOT, true));
    assert(end_at(s, e));
}

/// Among the items of packets no flagged `EOT` occurs.
pub proof fn lemma_packets_hold_no_end(packets: Seq<PacketView>)
    ensures
        forall|i: int|
            0 <= i < packets_items(packets).len() ==> #[trigger] packets_items(packets)[i] != (
                EOT,
                true,
            ),
    decreases packets.len(),
{
    lemma_split_packets(Seq::empty(), packets);
    if packets.len() > 0 {
        lemma_packets_hold_no_end(packets.drop_last());
        let p = packets.last();
        let before = packets_items(packets.drop_last());
        let all = packets_items(packets);
        assert forall|i: int| 0 <= i < all.len() implies #[trigger] all[i] != (EOT, true) by {
            if i < before.len() {
                assert(all[i] == before[i]);
            } else {
                assert(all[i] == p.items()[i - before.len()]);
            }
        }
    }
}

/// The flagged `EOT` is the last item of a transmission and no other.
pub proof fn lemma_end_is_last(t: TransmissionView)
    ensures
        forall|i: int| 0 <= i < t.items().len() - 1 ==> #[trigger] t.items()[i] != (EOT, true),
{
    lemma_packets_hold_no_end(t.packets);
    let lead = lead_items(t.header);
    let mid = packets_items(t.packets);
    let all = t.items();
    assert forall|i: int| 0 <= i < all.len() - 1 implies #[trigger] all[i] != (EOT, true) by {
        if i < lead.len() {
            assert(all[i] == lead[i]);
        } else {
            assert(all[i] == mid[i - lead.len()]);
        }
    }
}

/// On the triplet grid of a transmission's stream an End marker stands at
/// the last triplet only: what looks like one inside a payload is off the
/// grid.
pub proof fn lemma_no_early_end(t: TransmissionView, j: int)
    requires
        0 <= j < t.items().len() - 1,
    ensures
        !end_at(encode_stream_spec(t.items()), 3 * j),
{
    let items = t.items();
    let s = encode_stream_spec(items);
    lemma_end_is_last(t);
    lemma_codec_round_trip(items[j].0, items[j].1, (j % 2) as u8);
    assert(s[3 * j] == stream_symbol(items, 3 * j));
    assert(s[3 * j + 1] == stream_symbol(items, 3 * j + 1));
    assert(s[3 * j + 2] == stream_symbol(items, 3 * j + 2));
    assert(decode_spec(s[3 * j], s[3 * j + 1], s[3 * j + 2]) == items[j]);
    assert(((0u8 & 0b111) << 5) | ((9u8 & 0b111) << 2) | ((1u8 & 0b110) >> 1) == 4 && 1u8 & 1 == 1
        && ((8u8 & 0b111) << 5) | ((1u8 & 0b111) << 2) | ((9u8 & 0b110) >> 1) == 4 && 9u8 & 1
        == 1) by (bit_vector);
}

/// A stream that is cut short holds no frame: while symbols of a
/// transmission are still to come, the synchroniser finds nothing.
#[verifier::spinoff_prover]
pub proof fn lemma_prefix_holds_no_frame(t: TransmissionView, k: int)
    requires
        0 <= k < encode_stream_spec(t.items()).len(),
    ensures
        forall|s: int, e: int| !frame_bounds(encode_stream_spec(t.items()).take(k), s, e),
{
    let stream = encode_stream_spec(t.items());
    let part = stream.take(k);
    lemma_stream_is_frame(t);
    assert forall|s: int, e: int| !frame_bounds(part, s, e) by {
        if frame_bounds(part, s, e) {
            assert(start_at(part, 0)) by {
                assert(part[0] == stream[0] && part[1] == stream[1] && part[2] == stream[2]);
            }
            assert(s == 0);
            let j = e / 3;
            lemma_no_early_end(t, j);
            assert(part[e] == stream[e] && part[e + 1] == stream[e + 1] && part[e + 2]
                == stream[e + 2]);
        }
    }
}

} // verus!
