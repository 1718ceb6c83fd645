//! Packets, transmissions and their byte form.
//!
//! On the wire a transmission is
//!
//! ```text
//! SOT  enquiry  total(2)  parity(4)
//! { SOH  size(2)  id(2)  ecc_size  SOTX  data  ecc } for each packet
//! EOT
//! ```
//!
//! with the four markers flagged as control bytes and every other byte
//! unflagged, 16-bit fields with the upper byte first.

use crate::controls::{is_control_value, is_marker, EOT, SOH, SOT, SOTX};
use crate::fec::{rs_corrected, rs_decode, rs_encode, rs_parity, MAX_BLOCK, MAX_PARITY};
use crate::symbols::{
    decode_stream, decode_stream_spec, encode_stream, encode_stream_spec, pack_nibbles, pack_spec,
};
use crate::utilities::{copy_range, join_u16, rows, split_u16, split_u16_spec};
use vstd::prelude::*;

verus! {

/// The two states of the retransmission controller.
#[derive(Debug, Clone, Copy, PartialEq, Eq, Structural)]
pub enum State {
    /// Sending or receiving a fresh transfer.
    Normal,
    /// An enquiry has been sent and its answer is awaited.
    WaitingForResponse,
}

/// The header of a packet.
#[derive(Debug, Clone, Copy, PartialEq, Eq, Structural)]
pub struct PacketHeader {
    /// The length of the data in wire symbols: three for each byte.
    pub size: u16,
    /// The packet's number within its transfer, counted from 1.
    pub id: u16,
    /// The number of parity bytes.
    pub ecc_size: u8,
}

/// One chunk of payload with its header and its parity.
#[derive(Debug, PartialEq, Eq)]
pub struct Packet {
    pub header: PacketHeader,
    pub data: Vec<u8>,
    pub ecc: Vec<u8>,
}

/// The header of a transmission.
#[derive(Debug, PartialEq, Eq)]
pub struct TransmissionHeader {
    /// Whether the packets carry a list of requested ids instead of payload.
    pub is_enquiry: bool,
    /// The number of packets of the transfer.
    pub total_packets: u16,
    /// Parity over the two bytes of `total_packets`.
    pub ecc: Vec<u8>,
}

/// A framed sequence of packets.
#[derive(Debug, PartialEq, Eq)]
pub struct Transmission {
    pub header: TransmissionHeader,
    pub packets: Vec<Packet>,
}

/// A packet as a mathematical value.
pub struct PacketView {
    pub header: PacketHeader,
    pub data: Seq<u8>,
    pub ecc: Seq<u8>,
}

/// A transmission header as a mathematical value.
pub struct TransmissionHeaderView {
    pub is_enquiry: bool,
    pub total_packets: u16,
    pub ecc: Seq<u8>,
}

/// A transmission as a mathematical value.
pub struct TransmissionView {
    pub header: TransmissionHeaderView,
    pub packets: Seq<PacketView>,
}

impl View for Packet {
    type V = PacketView;

    open spec fn view(&self) -> PacketView {
        PacketView { header: self.header, data: self.data@, ecc: self.ecc@ }
    }
}

impl View for TransmissionHeader {
    type V = TransmissionHeaderView;

    open spec fn view(&self) -> TransmissionHeaderView {
        TransmissionHeaderView {
            is_enquiry: self.is_enquiry,
            total_packets: self.total_packets,
            ecc: self.ecc@,
        }
    }
}

impl View for Transmission {
    type V = TransmissionView;

    open spec fn view(&self) -> TransmissionView {
        TransmissionView { header: self.header@, packets: views(self.packets@) }
    }
}

/// The values of a sequence of packets.
pub open spec fn views(packets: Seq<Packet>) -> Seq<PacketView> {
    Seq::new(packets.len(), |i: int| packets[i]@)
}

/// The longest chunk that fits one block of the code together with its
/// header of 7 bytes and its parity.
pub const MAX_CHUNK: usize = 99;

/// The largest number of packets in a transfer: ids run from 1, and the
/// largest 16-bit value is set aside.
pub const MAX_PACKETS: usize = 65534;

/// The number of parity bytes for a chunk of `len` bytes: one and a half
/// times the length, rounded down.
pub open spec fn parity_len(len: int) -> int {
    len * 3 / 2
}

/// The seven bytes of a packet header: `SOH`, size, id, parity length,
/// `SOTX`.
pub open spec fn header_bytes(h: PacketHeader) -> Seq<u8> {
    seq![SOH] + split_u16_spec(h.size) + split_u16_spec(h.id) + seq![h.ecc_size, SOTX]
}

/// Bytes as unflagged items.
pub open spec fn plain(bytes: Seq<u8>) -> Seq<(u8, bool)> {
    Seq::new(bytes.len(), |i: int| (bytes[i], false))
}

/// The items of a packet header: its bytes, the two markers flagged.
pub open spec fn header_items(h: PacketHeader) -> Seq<(u8, bool)> {
    seq![(SOH, true)] + plain(split_u16_spec(h.size) + split_u16_spec(h.id) + seq![h.ecc_size])
        + seq![(SOTX, true)]
}

/// The items of a transmission header.
pub open spec fn lead_items(h: TransmissionHeaderView) -> Seq<(u8, bool)> {
    seq![(SOT, true), (if h.is_enquiry { 1u8 } else { 0u8 }, false)] + plain(
        split_u16_spec(h.total_packets) + h.ecc,
    )
}

impl PacketView {
    /// The block that the parity protects and the decoder repairs: header,
    /// data, parity.
    pub open spec fn block(self) -> Seq<u8> {
        header_bytes(self.header) + self.data + self.ecc
    }

    /// The items of the packet on the wire.
    pub open spec fn items(self) -> Seq<(u8, bool)> {
        header_items(self.header) + plain(self.data) + plain(self.ecc)
    }

    /// The header's size field gives the length of the data, so that a
    /// receiver cuts the body where the sender joined it.
    pub open spec fn framed(self) -> bool {
        self.header.size / 3 == self.data.len()
    }

    /// What `Packet::new` makes of a chunk: the size field counts three
    /// symbols for each byte, the parity is the code's parity over header
    /// and data, and the decoder takes the block for a clean codeword.
    pub open spec fn sealed(self) -> bool {
        &&& self.data.len() <= MAX_CHUNK
        &&& self.header.size == 3 * self.data.len()
        &&& self.header.ecc_size == parity_len(self.data.len() as int)
        &&& self.ecc == rs_parity(
            header_bytes(self.header) + self.data,
            self.header.ecc_size as int,
        )
        &&& self.ecc.len() == self.header.ecc_size
        &&& rs_corrected(self.block(), self.header.ecc_size as int) == Some((self.block(), 0int))
    }

    /// Whether the block can be handed to the decoder: it fits the code, and
    /// the parity length that the header names leaves a whole header in
    /// front of it.
    pub open spec fn decodable(self) -> bool {
        &&& self.block().len() <= MAX_BLOCK
        &&& self.header.ecc_size <= MAX_PARITY
        &&& self.header.ecc_size <= self.data.len() + self.ecc.len()
    }

    /// The data of a repaired block: what stands between the header and the
    /// parity.
    pub open spec fn data_of(self, fixed: Seq<u8>) -> Seq<u8> {
        fixed.subrange(7, self.block().len() - self.header.ecc_size)
    }

    /// What the receiver makes of a decoder's outcome for this packet's
    /// block: the repaired data with the number of repaired symbols, or
    /// nothing where the block is not decodable, the decoder gave it up, or
    /// its answer has another length than the block.
    pub open spec fn settle_spec(self, outcome: Option<(Seq<u8>, int)>) -> Option<(Seq<u8>, int)> {
        match outcome {
            Some((fixed, count)) => if self.decodable() && fixed.len() == self.block().len() {
                Some((self.data_of(fixed), count))
            } else {
                None
            },
            None => None,
        }
    }

    /// The corrected data of the packet and the number of repaired symbols,
    /// or `None` where the packet is beyond repair.
    pub open spec fn correct_spec(self) -> Option<(Seq<u8>, int)> {
        if self.decodable() {
            self.settle_spec(rs_corrected(self.block(), self.header.ecc_size as int))
        } else {
            None
        }
    }
}

impl TransmissionView {
    /// The items of the transmission on the wire.
    pub open spec fn items(self) -> Seq<(u8, bool)> {
        lead_items(self.header) + packets_items(self.packets) + seq![(EOT, true)]
    }

    /// The packed symbol stream of the transmission.
    pub open spec fn packed(self) -> Seq<u8> {
        pack_spec(encode_stream_spec(self.items()))
    }
}

/// The items of a sequence of packets, one packet after the other.
pub open spec fn packets_items(packets: Seq<PacketView>) -> Seq<(u8, bool)> {
    packets.map_values(|p: PacketView| p.items()).flatten()
}

/// A packet that no decoder could repair.
#[derive(Debug, Clone, Copy, PartialEq, Eq, Structural)]
pub struct Unrecoverable;

/// A decoder's outcome as a mathematical value.
pub open spec fn outcome_view(outcome: Option<(Vec<u8>, usize)>) -> Option<(Seq<u8>, int)> {
    match outcome {
        Some((fixed, count)) => Some((fixed@, count as int)),
        None => None,
    }
}

/// The result of a correction as a mathematical value: the data and the
/// number of repaired symbols, or `None` for an unrecoverable packet.
pub open spec fn repaired(r: Result<(Vec<u8>, usize), Unrecoverable>) -> Option<(Seq<u8>, int)> {
    match r {
        Ok((data, count)) => Some((data@, count as int)),
        Err(_) => None,
    }
}

/// Turns bytes into unflagged items.
pub fn plain_items(bytes: &Vec<u8>) -> (items: Vec<(u8, bool)>)
    ensures
        items@ == plain(bytes@),
{
    let mut items: Vec<(u8, bool)> = Vec::new();
    let mut i: usize = 0;
    while i < bytes.len()
        invariant
            i <= bytes.len(),
            items.len() == i,
            forall|k: int| 0 <= k < i ==> items[k] == (bytes[k], false),
        decreases bytes.len() - i,
    {
        items.push((bytes[i], false));
        i += 1;
    }
    assert(items@ =~= plain(bytes@));
    items
}

impl PacketHeader {
    /// A header with the given fields.
    pub fn new(size: u16, id: u16, ecc_size: u8) -> (r: Self)
        ensures
            r == (PacketHeader { size, id, ecc_size }),
    {
        Self { size, id, ecc_size }
    }

    /// The header as the seven bytes that the parity covers.
    pub fn to_vec(&self) -> (r: Vec<u8>)
        ensures
            r@ == header_bytes(*self),
    {
        let size: [u8; 2] = split_u16(self.size);
        let id: [u8; 2] = split_u16(self.id);
        let mut r: Vec<u8> = Vec::new();
        r.push(SOH);
        r.push(size[0]);
        r.push(size[1]);
        r.push(id[0]);
        r.push(id[1]);
        r.push(self.ecc_size);
        r.push(SOTX);
        assert(r@ =~= header_bytes(*self));
        r
    }

    /// The header as items for the symbol codec.
    pub fn to_binary(&self) -> (r: Vec<(u8, bool)>)
        ensures
            r@ == header_items(*self),
    {
        let size: [u8; 2] = split_u16(self.size);
        let id: [u8; 2] = split_u16(self.id);
        let mut r: Vec<(u8, bool)> = Vec::new();
        r.push((SOH, true));
        r.push((size[0], false));
        r.push((size[1], false));
        r.push((id[0], false));
        r.push((id[1], false));
        r.push((self.ecc_size, false));
        r.push((SOTX, true));
        assert(r@ =~= header_items(*self));
        r
    }

    /// The header of no packet: all fields zero.
    pub fn empty() -> (r: Self)
        ensures
            r == (PacketHeader { size: 0, id: 0, ecc_size: 0 }),
    {
        Self { size: 0, id: 0, ecc_size: 0 }
    }
}

impl Clone for Packet {
    fn clone(&self) -> (r: Self)
        ensures
            r@ == self@,
    {
        let data: Vec<u8> = copy_range(&self.data, 0, self.data.len());
        let ecc: Vec<u8> = copy_range(&self.ecc, 0, self.ecc.len());
        assert(data@ =~= self.data@);
        assert(ecc@ =~= self.ecc@);
        Packet { header: self.header, data, ecc }
    }
}

impl Packet {
    /// Builds the packet for one chunk of payload: the header, and the
    /// parity of the code over header and chunk.
    pub fn new(packet_data: Vec<u8>, id: u16) -> (r: Self)
        requires
            packet_data.len() <= MAX_CHUNK,
        ensures
            r@.data == packet_data@,
            r@.header.id == id,
            r@.sealed(),
    {
        let len: usize = packet_data.len();
        let ecc_size: usize = len * 3 / 2;
        let header: PacketHeader = PacketHeader::new((len * 3) as u16, id, ecc_size as u8);
        let mut covered: Vec<u8> = header.to_vec();
        let mut chunk: Vec<u8> = copy_range(&packet_data, 0, len);
        covered.append(&mut chunk);
        assert(covered@ =~= header_bytes(header) + packet_data@);
        let ecc: Vec<u8> = rs_encode(&covered, ecc_size);
        let r = Packet { header, data: packet_data, ecc };
        assert(r@.block() =~= covered@ + ecc@);
        r
    }

    /// The packet as items for the symbol codec: header, data, parity.
    pub fn to_binary(&self) -> (r: Vec<(u8, bool)>)
        ensures
            r@ == self@.items(),
    {
        let mut r: Vec<(u8, bool)> = self.header.to_binary();
        let mut data: Vec<(u8, bool)> = plain_items(&self.data);
        let mut ecc: Vec<(u8, bool)> = plain_items(&self.ecc);
        r.append(&mut data);
        r.append(&mut ecc);
        r
    }

    /// Overwrites the size field of the header.
    pub fn set_size(&mut self, new_size: u16)
        ensures
            final(self)@.header == (PacketHeader { size: new_size, ..old(self)@.header }),
            final(self)@.data == old(self)@.data,
            final(self)@.ecc == old(self)@.ecc,
    {
        self.header.size = new_size;
    }

    /// Whether the packet's block can be handed to the decoder.
    pub fn is_decodable(&self) -> (r: bool)
        ensures
            r == self@.decodable(),
    {
        let ecc_size: usize = self.header.ecc_size as usize;
        proof {
            assert(header_bytes(self.header).len() == 7);
        }
        self.data.len() <= MAX_BLOCK && self.ecc.len() <= MAX_BLOCK && 7 + self.data.len()
            + self.ecc.len() <= MAX_BLOCK && ecc_size <= MAX_PARITY && ecc_size <= self.data.len()
            + self.ecc.len()
    }

    /// Runs the decoder over header, data and parity. Returns the repaired
    /// data with the number of symbols that were repaired, 0 for a clean
    /// packet, or `Unrecoverable` where the block does not fit the code or
    /// holds more errors than its parity resolves.
    pub fn correct(&self) -> (r: Result<(Vec<u8>, usize), Unrecoverable>)
        ensures
            repaired(r) == self@.correct_spec(),
    {
        if !self.is_decodable() {
            return Err(Unrecoverable);
        }
        let mut block: Vec<u8> = self.header.to_vec();
        let mut data: Vec<u8> = copy_range(&self.data, 0, self.data.len());
        let mut ecc: Vec<u8> = copy_range(&self.ecc, 0, self.ecc.len());
        block.append(&mut data);
        block.append(&mut ecc);
        assert(block@ =~= self@.block());
        let outcome: Option<(Vec<u8>, usize)> = rs_decode(&block, self.header.ecc_size as usize);
        self.settle(outcome)
    }

    /// What the receiver makes of the decoder's outcome for this packet's
    /// block: from a repaired block of the right length it cuts the data
    /// out; anything else leaves the packet unrecoverable.
    pub fn settle(&self, outcome: Option<(Vec<u8>, usize)>) -> (r: Result<
        (Vec<u8>, usize),
        Unrecoverable,
    >)
        ensures
            repaired(r) == self@.settle_spec(outcome_view(outcome)),
    {
        match outcome {
            Some((fixed, count)) => {
                proof {
                    assert(header_bytes(self.header).len() == 7);
                }
                if self.is_decodable() && fixed.len() == 7 + self.data.len() + self.ecc.len() {
                    let end: usize = fixed.len() - self.header.ecc_size as usize;
                    Ok((copy_range(&fixed, 7, end), count))
                } else {
                    Err(Unrecoverable)
                }
            },
            None => Err(Unrecoverable),
        }
    }
}

/// `packets` carry `chunks`, one sealed packet for each chunk, with ids
/// counted from 1 in the order of the chunks.
pub open spec fn carries(packets: Seq<PacketView>, chunks: Seq<Seq<u8>>) -> bool {
    &&& packets.len() == chunks.len()
    &&& forall|i: int|
        0 <= i < packets.len() ==> {
            &&& (#[trigger] packets[i]).sealed()
            &&& packets[i].data == chunks[i]
            &&& packets[i].header.id == i + 1
        }
}

/// The header that `TransmissionHeader::new` makes: the parity is the
/// code's parity of 4 bytes over the two bytes of the count.
pub open spec fn fresh_header(total_packets: u16, is_enquiry: bool) -> TransmissionHeaderView {
    TransmissionHeaderView {
        is_enquiry,
        total_packets,
        ecc: rs_parity(split_u16_spec(total_packets), 4),
    }
}

/// Bytes and flags side by side.
pub open spec fn zip(data: Seq<u8>, flags: Seq<bool>) -> Seq<(u8, bool)> {
    Seq::new(data.len(), |i: int| (data[i], flags[i]))
}

/// The bytes of `items` cut in front of every flagged byte. The first
/// chunk begins with the first byte, flagged or not; every later chunk
/// begins with a flagged byte; no chunk is empty.
pub open spec fn split_spec(items: Seq<(u8, bool)>) -> Seq<Seq<u8>>
    decreases items.len(),
{
    if items.len() == 0 {
        seq![]
    } else {
        let before = split_spec(items.drop_last());
        if before.len() == 0 || items.last().1 {
            before.push(seq![items.last().0])
        } else {
            before.drop_last().push(before.last().push(items.last().0))
        }
    }
}

/// The packet that a header chunk and the chunk after it hold: the header
/// chunk begins with `SOH` and has the five header bytes; the body chunk
/// has one marker byte, the data, whose length is a third of the size
/// field, and the parity, which is all that follows.
pub open spec fn parse_packet(header: Seq<u8>, body: Seq<u8>) -> Option<PacketView> {
    if header.len() >= 6 && header[0] == SOH {
        let size = join_u16(header[1], header[2]);
        let id = join_u16(header[3], header[4]);
        let cut = size / 3 + 1;
        if cut <= body.len() {
            Some(
                PacketView {
                    header: PacketHeader { size, id, ecc_size: header[5] },
                    data: body.subrange(1, cut as int),
                    ecc: body.subrange(cut as int, body.len() as int),
                },
            )
        } else {
            None
        }
    } else {
        None
    }
}

/// The packet that chunk `i` and its successor hold, if there is one.
pub open spec fn packet_at(chunks: Seq<Seq<u8>>, i: int) -> Option<PacketView> {
    if 0 <= i && i + 1 < chunks.len() {
        parse_packet(chunks[i], chunks[i + 1])
    } else {
        None
    }
}

/// The packets that the chunks in front of index `n` begin, in order.
pub open spec fn parse_upto(chunks: Seq<Seq<u8>>, n: int) -> Seq<PacketView>
    decreases n,
{
    if n <= 0 {
        seq![]
    } else {
        match packet_at(chunks, n - 1) {
            Some(p) => parse_upto(chunks, n - 1).push(p),
            None => parse_upto(chunks, n - 1),
        }
    }
}

/// The packets that a sequence of chunks holds.
pub open spec fn parse_packets(chunks: Seq<Seq<u8>>) -> Seq<PacketView> {
    parse_upto(chunks, chunks.len() as int)
}

/// The items that a receiver reads from a packed stream: the decoded bytes,
/// a flag kept only on a byte of the framing vocabulary, and a last byte
/// of zero dropped, which is what an odd number of items leaves behind.
pub open spec fn received_items(packed: Seq<u8>) -> Seq<(u8, bool)> {
    let decoded = decode_stream_spec(packed);
    let masked = Seq::new(
        decoded.len(),
        |i: int| (decoded[i].0, decoded[i].1 && is_marker(decoded[i].0)),
    );
    if masked.len() > 0 && masked.last().0 == 0 {
        masked.drop_last()
    } else {
        masked
    }
}

/// Why a frame holds no transmission.
#[derive(Debug, Clone, Copy, PartialEq, Eq, Structural)]
pub enum FrameError {
    /// The frame holds no byte at all.
    Empty,
    /// The first chunk does not begin with `SOT`: there is no transmission
    /// header.
    HeaderAbsent,
    /// The first chunk begins with `SOT` and ends before the count of
    /// packets is complete.
    HeaderTruncated,
}

/// The chunks between the transmission header and the last chunk, which
/// holds the end marker.
pub open spec fn body_chunks(chunks: Seq<Seq<u8>>) -> Seq<Seq<u8>> {
    if chunks.len() >= 2 {
        chunks.subrange(1, chunks.len() - 1)
    } else {
        seq![]
    }
}

/// The transmission that a sequence of received items holds.
pub open spec fn deserialize_spec(items: Seq<(u8, bool)>) -> Result<TransmissionView, FrameError> {
    let chunks = split_spec(items);
    if chunks.len() == 0 {
        Err(FrameError::Empty)
    } else if chunks[0][0] != SOT {
        Err(FrameError::HeaderAbsent)
    } else if chunks[0].len() < 4 {
        Err(FrameError::HeaderTruncated)
    } else {
        Ok(
            TransmissionView {
                header: TransmissionHeaderView {
                    is_enquiry: chunks[0][1] & 1 == 1,
                    total_packets: join_u16(chunks[0][2], chunks[0][3]),
                    ecc: chunks[0].skip(4),
                },
                packets: parse_packets(body_chunks(chunks)),
            },
        )
    }
}

/// The result of decoding as a mathematical value.
pub open spec fn decoded(r: Result<Transmission, FrameError>) -> Result<
    TransmissionView,
    FrameError,
> {
    match r {
        Ok(t) => Ok(t@),
        Err(e) => Err(e),
    }
}

/// No chunk of a split is empty.
pub proof fn lemma_split_nonempty(items: Seq<(u8, bool)>)
    ensures
        forall|i: int|
            0 <= i < split_spec(items).len() ==> (#[trigger] split_spec(items)[i]).len() > 0,
        items.len() > 0 ==> split_spec(items).len() > 0,
    decreases items.len(),
{
    if items.len() > 0 {
        lemma_split_nonempty(items.drop_last());
        let before = split_spec(items.drop_last());
        let all = split_spec(items);
        assert forall|i: int| 0 <= i < all.len() implies (#[trigger] all[i]).len() > 0 by {
            if before.len() == 0 || items.last().1 {
                if i < before.len() {
                    assert(all[i] == before[i]);
                }
            } else {
                if i < before.len() - 1 {
                    assert(all[i] == before[i]);
                }
            }
        }
    }
}

impl Packet {
    /// Reads packets from the chunks of a frame: every chunk that begins
    /// with `SOH` and carries the five header bytes is a header, the chunk
    /// after it is its body. A body too short for the size that its header
    /// names gives no packet.
    pub fn from_binary(data: Vec<Vec<u8>>) -> (packets: Vec<Self>)
        ensures
            views(packets@) == parse_packets(rows(data@)),
    {
        let mut packets: Vec<Packet> = Vec::new();
        let n: usize = data.len();
        let mut i: usize = 0;
        while i < n
            invariant
                n == data.len(),
                i <= n,
                views(packets@) == parse_upto(rows(data@), i as int),
            decreases n - i,
        {
            let ghost before = views(packets@);
            let ghost found = packet_at(rows(data@), i as int);
            if n - i > 1 {
                let header: &Vec<u8> = &data[i];
                let body: &Vec<u8> = &data[i + 1];
                if header.len() >= 6 && header[0] == SOH {
                    let size: u16 = ((header[1] as u16) << 8) | (header[2] as u16);
                    let id: u16 = ((header[3] as u16) << 8) | (header[4] as u16);
                    let cut: usize = (size / 3 + 1) as usize;
                    if cut <= body.len() {
                        let packet = Packet {
                            header: PacketHeader { size, id, ecc_size: header[5] },
                            data: copy_range(body, 1, cut),
                            ecc: copy_range(body, cut, body.len()),
                        };
                        assert(found == Some(packet@));
                        packets.push(packet);
                        assert(views(packets@) =~= before.push(packet@));
                    }
                }
            }
            assert(views(packets@) =~= match found {
                Some(p) => before.push(p),
                None => before,
            });
            i += 1;
        }
        packets
    }
}

impl TransmissionHeader {
    /// The header for a transmission of `size` packets, with the parity
    /// that protects the count.
    pub fn new(size: u16, is_enquiry: bool) -> (r: Self)
        ensures
            r@ == fresh_header(size, is_enquiry),
            r.ecc.len() == 4,
    {
        let count: [u8; 2] = split_u16(size);
        let mut covered: Vec<u8> = Vec::new();
        covered.push(count[0]);
        covered.push(count[1]);
        assert(covered@ =~= split_u16_spec(size));
        let ecc: Vec<u8> = rs_encode(&covered, 4);
        Self { is_enquiry, total_packets: size, ecc }
    }

    /// The header as items for the symbol codec.
    pub fn to_binary(&self) -> (r: Vec<(u8, bool)>)
        ensures
            r@ == lead_items(self@),
    {
        let count: [u8; 2] = split_u16(self.total_packets);
        let mut r: Vec<(u8, bool)> = Vec::new();
        r.push((SOT, true));
        r.push((if self.is_enquiry { 1 } else { 0 }, false));
        r.push((count[0], false));
        r.push((count[1], false));
        let mut ecc: Vec<(u8, bool)> = plain_items(&self.ecc);
        r.append(&mut ecc);
        assert(r@ =~= lead_items(self@));
        r
    }
}

impl Clone for TransmissionHeader {
    fn clone(&self) -> (r: Self)
        ensures
            r@ == self@,
    {
        let ecc: Vec<u8> = copy_range(&self.ecc, 0, self.ecc.len());
        assert(ecc@ =~= self.ecc@);
        TransmissionHeader { is_enquiry: self.is_enquiry, total_packets: self.total_packets, ecc }
    }
}

impl Clone for Transmission {
    fn clone(&self) -> (r: Self)
        ensures
            r@ == self@,
    {
        let mut packets: Vec<Packet> = Vec::new();
        let mut i: usize = 0;
        while i < self.packets.len()
            invariant
                i <= self.packets.len(),
                packets.len() == i,
                forall|k: int| 0 <= k < i ==> (#[trigger] packets[k])@ == self.packets[k]@,
            decreases self.packets.len() - i,
        {
            packets.push(self.packets[i].clone());
            i += 1;
        }
        assert(views(packets@) =~= views(self.packets@));
        Transmission { header: self.header.clone(), packets }
    }
}

impl Transmission {
    /// Frames a list of packets. The count of the header is their number.
    pub fn new(data: Vec<Packet>, is_enquiry: bool) -> (r: Self)
        requires
            data.len() <= MAX_PACKETS,
        ensures
            r@.header == fresh_header(data.len() as u16, is_enquiry),
            r@.packets == views(data@),
    {
        Self { header: TransmissionHeader::new(data.len() as u16, is_enquiry), packets: data }
    }

    /// Decodes a packed stream into the transmission it holds.
    pub fn from_bytes(data: Vec<u8>) -> (r: Result<Self, FrameError>)
        ensures
            decoded(r) == deserialize_spec(received_items(data@)),
    {
        let mut decoder = ProtocolDecoder::new(data);
        decoder.decode()
    }

    /// Replaces the packets and leaves the header as it is.
    pub fn set_packets(&mut self, packets: Vec<Packet>)
        ensures
            final(self)@.header == old(self)@.header,
            final(self)@.packets == views(packets@),
    {
        self.packets = packets;
    }

    /// The transmission as a packed symbol stream: the items of the header,
    /// of every packet and the end marker, three symbols for each, two
    /// symbols to a byte.
    pub fn to_binary(&self) -> (r: Vec<u8>)
        ensures
            r@ == self@.packed(),
    {
        let mut items: Vec<(u8, bool)> = self.header.to_binary();
        let mut i: usize = 0;
        proof {
            assert(views(self.packets@).take(0).map_values(|p: PacketView| p.items()) =~= seq![]);
            assert(items@ =~= lead_items(self@.header) + packets_items(
                views(self.packets@).take(0),
            ));
        }
        while i < self.packets.len()
            invariant
                i <= self.packets.len(),
                items@ == lead_items(self@.header) + packets_items(
                    views(self.packets@).take(i as int),
                ),
            decreases self.packets.len() - i,
        {
            let mut more: Vec<(u8, bool)> = self.packets[i].to_binary();
            proof {
                let all = views(self.packets@);
                let f = |p: PacketView| p.items();
                assert(all.take(i + 1).map_values(f) =~= all.take(i as int).map_values(f).push(
                    all[i as int].items(),
                ));
                all.take(i as int).map_values(f).lemma_flatten_push(all[i as int].items());
            }
            items.append(&mut more);
            i += 1;
        }
        assert(views(self.packets@).take(i as int) =~= views(self.packets@));
        items.push((EOT, true));
        assert(items@ =~= self@.items());
        let symbols: Vec<u8> = encode_stream(&items);
        pack_nibbles(&symbols)
    }
}

/// Cuts a byte sequence in front of every flagged byte.
pub fn split_data(data: Vec<u8>, flags: Vec<bool>) -> (chunks: Vec<Vec<u8>>)
    requires
        data.len() == flags.len(),
    ensures
        rows(chunks@) == split_spec(zip(data@, flags@)),
{
    let ghost items = zip(data@, flags@);
    let mut chunks: Vec<Vec<u8>> = Vec::new();
    let mut current: Vec<u8> = Vec::new();
    let mut i: usize = 0;
    proof {
        assert(items.take(0) =~= seq![]);
    }
    while i < data.len()
        invariant
            data.len() == flags.len(),
            items == zip(data@, flags@),
            i <= data.len(),
            i == 0 ==> chunks.len() == 0 && current.len() == 0,
            i > 0 ==> current.len() > 0 && split_spec(items.take(i as int)) == rows(chunks@).push(
                current@,
            ),
        decreases data.len() - i,
    {
        let ghost done = rows(chunks@);
        let ghost open_chunk = current@;
        let ghost before = split_spec(items.take(i as int));
        proof {
            assert(items.take(i + 1).drop_last() =~= items.take(i as int));
            assert(items.take(i + 1).last() == (data[i as int], flags[i as int]));
        }
        if flags[i] && current.len() > 0 {
            chunks.push(current);
            current = Vec::new();
            assert(rows(chunks@) =~~= done.push(open_chunk));
        }
        current.push(data[i]);
        proof {
            let after = split_spec(items.take(i + 1));
            if i == 0 {
                assert(rows(chunks@) =~~= seq![]);
                assert(current@ =~= seq![data[0]]);
                assert(after =~~= rows(chunks@).push(current@));
            } else if flags[i as int] {
                assert(current@ =~= seq![data[i as int]]);
                assert(after =~~= rows(chunks@).push(current@));
            } else {
                assert(before.drop_last() =~~= done);
                assert(rows(chunks@) =~~= done);
                assert(after =~~= rows(chunks@).push(current@));
            }
        }
        i += 1;
    }
    if current.len() > 0 {
        let ghost done = rows(chunks@);
        chunks.push(current);
        assert(rows(chunks@) =~~= done.push(current@));
        assert(items.take(i as int) =~= items);
    } else {
        assert(rows(chunks@) =~~= seq![]);
        assert(items =~= seq![]);
    }
    chunks
}

/// The receiving side of the symbol codec: the bytes of a frame with
/// their control flags.
pub struct ProtocolDecoder {
    bytes: Vec<u8>,
    flags: Vec<bool>,
}

impl ProtocolDecoder {
    #[verifier::type_invariant]
    spec fn aligned(self) -> bool {
        self.bytes.len() == self.flags.len()
    }

    /// The received bytes with their flags.
    pub closed spec fn items(self) -> Seq<(u8, bool)> {
        zip(self.bytes@, self.flags@)
    }

    /// Decodes a packed stream: two bytes from every three, a flag kept
    /// only on a byte of the framing vocabulary, a last byte of zero
    /// dropped.
    pub fn new(data: Vec<u8>) -> (r: Self)
        ensures
            r.items() == received_items(data@),
    {
        let decoded: Vec<(u8, bool)> = decode_stream(&data);
        let mut bytes: Vec<u8> = Vec::new();
        let mut flags: Vec<bool> = Vec::new();
        let mut i: usize = 0;
        while i < decoded.len()
            invariant
                i <= decoded.len(),
                bytes.len() == i,
                flags.len() == i,
                forall|k: int|
                    0 <= k < i ==> bytes[k] == decoded[k].0 && flags[k] == (decoded[k].1
                        && is_marker(decoded[k].0)),
            decreases decoded.len() - i,
        {
            let item: (u8, bool) = decoded[i];
            bytes.push(item.0);
            flags.push(item.1 && is_control_value(item.0));
            i += 1;
        }
        let ghost masked = zip(bytes@, flags@);
        if bytes.len() > 0 && bytes[bytes.len() - 1] == 0 {
            bytes.pop();
            flags.pop();
            assert(zip(bytes@, flags@) =~= masked.drop_last());
        }
        assert(zip(bytes@, flags@) =~= received_items(data@));
        Self { bytes, flags }
    }

    /// The number of received bytes.
    pub fn len(&self) -> (n: usize)
        ensures
            n == self.items().len(),
    {
        self.bytes.len()
    }

    /// The received byte at `index` with its control flag.
    pub fn get(&self, index: usize) -> (r: Option<(u8, bool)>)
        ensures
            r == if index < self.items().len() {
                Some(self.items()[index as int])
            } else {
                None
            },
    {
        proof {
            use_type_invariant(self);
        }
        if index < self.bytes.len() {
            Some((self.bytes[index], self.flags[index]))
        } else {
            None
        }
    }

    /// Reads the transmission out of the received bytes: cuts them in
    /// front of every control byte, takes the header from the first chunk
    /// and the packets from the chunks between it and the last one.
    pub fn decode(&mut self) -> (r: Result<Transmission, FrameError>)
        ensures
            final(self).items() == old(self).items(),
            decoded(r) == deserialize_spec(old(self).items()),
    {
        proof {
            use_type_invariant(&*self);
        }
        let data: Vec<u8> = copy_range(&self.bytes, 0, self.bytes.len());
        let mut flags: Vec<bool> = Vec::new();
        let mut i: usize = 0;
        while i < self.flags.len()
            invariant
                i <= self.flags.len(),
                flags.len() == i,
                forall|k: int| 0 <= k < i ==> flags[k] == self.flags[k],
            decreases self.flags.len() - i,
        {
            flags.push(self.flags[i]);
            i += 1;
        }
        assert(zip(data@, flags@) =~= self.items());
        let chunks: Vec<Vec<u8>> = split_data(data, flags);
        proof {
            lemma_split_nonempty(self.items());
        }
        if chunks.len() == 0 {
            return Err(FrameError::Empty);
        }
        let lead: &Vec<u8> = &chunks[0];
        assert(lead@ == rows(chunks@)[0]);
        if lead[0] != SOT {
            return Err(FrameError::HeaderAbsent);
        }
        if lead.len() < 4 {
            return Err(FrameError::HeaderTruncated);
        }
        let header = TransmissionHeader {
            is_enquiry: lead[1] & 1 == 1,
            total_packets: ((lead[2] as u16) << 8) | (lead[3] as u16),
            ecc: copy_range(lead, 4, lead.len()),
        };
        let mut body: Vec<Vec<u8>> = Vec::new();
        let mut j: usize = 1;
        while j + 1 < chunks.len()
            invariant
                1 <= j,
                j <= chunks.len(),
                chunks.len() >= 2 ==> j + 1 <= chunks.len(),
                body.len() == j - 1,
                forall|k: int| 0 <= k < j - 1 ==> (#[trigger] body[k])@ == chunks[k + 1]@,
            decreases chunks.len() - j,
        {
            body.push(copy_range(&chunks[j], 0, chunks[j].len()));
            assert(body[j - 1]@ =~= chunks[j as int]@);
            j += 1;
        }
        assert(rows(body@) =~= body_chunks(rows(chunks@)));
        let packets: Vec<Packet> = Packet::from_binary(body);
        Ok(Transmission { header, packets })
    }
}

} // verus!
