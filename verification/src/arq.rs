//! The retransmission controller. It keeps the completion table of the
//! transfer that is being received and the transmission that was sent, and
//! decides, frame by frame, what the caller does next: hand the payload
//! over, ask for the packets that are missing, or answer such a request.
//!
//! The controller reads no clock and touches no transport. The caller feeds
//! it received symbols and timeouts, and carries out the action it returns.

use crate::protocol::{
    carries, deserialize_spec, fresh_header, received_items, FrameError, Packet,
    PacketView, ProtocolDecoder, State, Transmission, TransmissionView, views, MAX_CHUNK,
    MAX_PACKETS,
};
use crate::symbols::{pack_nibbles, pack_spec};
use crate::utilities::{
    chunk_data, chunk_spec, copy_range, frame_bounds, make_transmission, rows, slice_data,
    start_and_end, u16_from_le, u16_from_le_spec, u16_le_spec, u16_to_u8_vec,
};
use vstd::prelude::*;

verus! {

/// The id that no packet may carry: the largest 16-bit value.
pub const SENTINEL: u16 = 0xFFFF;

/// What the caller of the controller has to do next.
#[derive(Debug, PartialEq, Eq)]
pub enum Action {
    /// Nothing.
    Idle,
    /// The transfer is complete: this is its payload.
    Deliver(Vec<u8>),
    /// Packets are missing: send an enquiry that names these ids.
    Enquire(Vec<u16>),
    /// An enquiry came in: send this transmission in answer.
    Reply(Transmission),
    /// The frame held no transmission and was dropped.
    Discard(FrameError),
    /// A packet or a count carries the reserved id: the transfer cannot go
    /// on.
    Abort,
}

/// An action as a mathematical value.
pub enum ActionView {
    Idle,
    Deliver(Seq<u8>),
    Enquire(Seq<u16>),
    Reply(TransmissionView),
    Discard(FrameError),
    Abort,
}

impl View for Action {
    type V = ActionView;

    open spec fn view(&self) -> ActionView {
        match *self {
            Action::Idle => ActionView::Idle,
            Action::Deliver(payload) => ActionView::Deliver(payload@),
            Action::Enquire(ids) => ActionView::Enquire(ids@),
            Action::Reply(t) => ActionView::Reply(t@),
            Action::Discard(e) => ActionView::Discard(e),
            Action::Abort => ActionView::Abort,
        }
    }
}

/// The controller as a mathematical value. Slot `i` of the completion table
/// belongs to the packet with id `i + 1`.
pub struct ControllerView {
    pub state: State,
    pub slots: Seq<Option<Seq<u8>>>,
    pub outbound: TransmissionView,
}

/// The retransmission controller.
pub struct Controller {
    state: State,
    slots: Vec<Option<Vec<u8>>>,
    outbound: Transmission,
}

/// The completion table as a mathematical value.
pub open spec fn slots_view(slots: Seq<Option<Vec<u8>>>) -> Seq<Option<Seq<u8>>> {
    Seq::new(
        slots.len(),
        |i: int|
            match slots[i] {
                Some(data) => Some(data@),
                None => None,
            },
    )
}

/// Recovered packets as mathematical values: ids with data.
pub open spec fn recovered_view(recovered: Seq<(u16, Vec<u8>)>) -> Seq<(u16, Seq<u8>)> {
    Seq::new(recovered.len(), |i: int| (recovered[i].0, recovered[i].1@))
}

/// The id and the corrected data of every packet in front of index `n` that
/// the decoder could repair, in order.
pub open spec fn recover_upto(packets: Seq<PacketView>, n: int) -> Seq<(u16, Seq<u8>)>
    decreases n,
{
    if n <= 0 {
        seq![]
    } else {
        match packets[n - 1].correct_spec() {
            Some((data, _)) => recover_upto(packets, n - 1).push((packets[n - 1].header.id, data)),
            None => recover_upto(packets, n - 1),
        }
    }
}

/// The id and the corrected data of every packet that the decoder could
/// repair, in order. An unrecoverable packet leaves no entry.
pub open spec fn recovered_spec(packets: Seq<PacketView>) -> Seq<(u16, Seq<u8>)> {
    recover_upto(packets, packets.len() as int)
}

/// The ids that the recovered packets of an enquiry name: the data of each
/// packet read as little-endian 16-bit values, packet after packet.
pub open spec fn requested_spec(recovered: Seq<(u16, Seq<u8>)>) -> Seq<u16> {
    recovered.map_values(|entry: (u16, Seq<u8>)| u16_from_le_spec(entry.1)).flatten()
}

/// The packets in front of index `n` whose id is among `ids`, in order.
pub open spec fn select_upto(packets: Seq<PacketView>, ids: Seq<u16>, n: int) -> Seq<PacketView>
    decreases n,
{
    if n <= 0 {
        seq![]
    } else if ids.contains(packets[n - 1].header.id) {
        select_upto(packets, ids, n - 1).push(packets[n - 1])
    } else {
        select_upto(packets, ids, n - 1)
    }
}

/// The answer to an enquiry for `ids`: the header of the transmission that
/// was sent, and those of its packets whose id is asked for, as they
/// were sent and in their order.
pub open spec fn answer_spec(outbound: TransmissionView, ids: Seq<u16>) -> TransmissionView {
    TransmissionView {
        header: outbound.header,
        packets: select_upto(outbound.packets, ids, outbound.packets.len() as int),
    }
}

/// A completion table of `total` empty slots.
pub open spec fn fresh_slots(total: int) -> Seq<Option<Seq<u8>>> {
    Seq::new(total as nat, |i: int| None)
}

/// The table after the recovered packets were written to it, one after the
/// other. A packet whose id has no slot is passed over.
pub open spec fn store_spec(slots: Seq<Option<Seq<u8>>>, recovered: Seq<(u16, Seq<u8>)>) -> Seq<
    Option<Seq<u8>>,
>
    decreases recovered.len(),
{
    if recovered.len() == 0 {
        slots
    } else {
        let before = store_spec(slots, recovered.drop_last());
        let (id, data) = recovered.last();
        if 1 <= id <= before.len() {
            before.update(id - 1, Some(data))
        } else {
            before
        }
    }
}

/// The ids, in ascending order, of the empty slots in front of index `n`.
pub open spec fn missing_upto(slots: Seq<Option<Seq<u8>>>, n: int) -> Seq<u16>
    decreases n,
{
    if n <= 0 {
        seq![]
    } else if slots[n - 1] is None {
        missing_upto(slots, n - 1).push(n as u16)
    } else {
        missing_upto(slots, n - 1)
    }
}

/// The ids of all empty slots, in ascending order.
pub open spec fn missing_spec(slots: Seq<Option<Seq<u8>>>) -> Seq<u16> {
    missing_upto(slots, slots.len() as int)
}

/// The bytes of a slot; none for an empty one.
pub open spec fn slot_bytes(slot: Option<Seq<u8>>) -> Seq<u8> {
    match slot {
        Some(data) => data,
        None => seq![],
    }
}

/// The payload that a table holds: the data of its slots in ascending order
/// of id.
pub open spec fn payload_spec(slots: Seq<Option<Seq<u8>>>) -> Seq<u8> {
    slots.map_values(|slot: Option<Seq<u8>>| slot_bytes(slot)).flatten()
}

/// Whether a data frame breaks the rule that the largest 16-bit value is
/// no id: its count is that value, or one of its packets carries it.
pub open spec fn violates(total: u16, recovered: Seq<(u16, Seq<u8>)>) -> bool {
    total == SENTINEL || exists|k: int| 0 <= k < recovered.len() && (#[trigger] recovered[k]).0
        == SENTINEL
}

/// The step for a data frame that declares `total` packets and from which
/// the packets `recovered` came out repaired.
///
/// A frame that breaks the id rule changes nothing and aborts. Otherwise
/// the table is kept where it has `total` slots and started afresh where it
/// has not; the recovered packets are written to it; with no slot left
/// empty the payload is delivered and the state is `Normal`, else the
/// missing ids are asked for and the state is `WaitingForResponse`.
pub open spec fn receive_spec(c: ControllerView, total: u16, recovered: Seq<(u16, Seq<u8>)>) -> (
    ControllerView,
    ActionView,
) {
    if violates(total, recovered) {
        (c, ActionView::Abort)
    } else {
        let base = if c.slots.len() == total {
            c.slots
        } else {
            fresh_slots(total as int)
        };
        let slots = store_spec(base, recovered);
        let missing = missing_spec(slots);
        if missing.len() == 0 {
            (
                ControllerView { state: State::Normal, slots, outbound: c.outbound },
                ActionView::Deliver(payload_spec(slots)),
            )
        } else {
            (
                ControllerView { state: State::WaitingForResponse, slots, outbound: c.outbound },
                ActionView::Enquire(missing),
            )
        }
    }
}

/// The step for a decoded transmission: an enquiry is answered from the
/// transmission that was sent and changes nothing; a data transmission
/// goes to the completion table.
pub open spec fn handle_spec(c: ControllerView, t: TransmissionView) -> (
    ControllerView,
    ActionView,
) {
    if t.header.is_enquiry {
        (
            c,
            ActionView::Reply(answer_spec(c.outbound, requested_spec(recovered_spec(t.packets)))),
        )
    } else {
        receive_spec(c, t.header.total_packets, recovered_spec(t.packets))
    }
}

/// The step for a frame of symbols: a frame that holds no transmission is
/// dropped and changes nothing.
pub open spec fn frame_spec(c: ControllerView, frame: Seq<u8>) -> (ControllerView, ActionView) {
    match deserialize_spec(received_items(pack_spec(frame))) {
        Ok(t) => handle_spec(c, t),
        Err(e) => (c, ActionView::Discard(e)),
    }
}

/// Whether a buffer of received symbols holds a complete frame.
pub open spec fn has_frame(buffer: Seq<u8>) -> bool {
    buffer.len() >= 6 && exists|s: int, e: int| frame_bounds(buffer, s, e)
}

/// The frame that a buffer holds: the symbols from its Start marker to the
/// end of its End marker.
pub open spec fn frame_of(buffer: Seq<u8>) -> Seq<u8> {
    let (s, e) = choose|s: int, e: int| frame_bounds(buffer, s, e);
    buffer.subrange(s, e + 3)
}

/// The step for one received symbol, with the buffer of symbols received
/// before. The symbol joins the buffer; once the buffer holds a frame, the
/// frame is processed and the buffer is emptied.
pub open spec fn feed_spec(c: ControllerView, buffer: Seq<u8>, symbol: u8) -> (
    ControllerView,
    Seq<u8>,
    ActionView,
) {
    let grown = buffer.push(symbol);
    if has_frame(grown) {
        (frame_spec(c, frame_of(grown)).0, Seq::empty(), frame_spec(c, frame_of(grown)).1)
    } else {
        (c, grown, ActionView::Idle)
    }
}

/// The step for a timeout: while an answer is awaited the same enquiry is
/// sent again; otherwise nothing happens.
pub open spec fn timeout_spec(c: ControllerView) -> (ControllerView, ActionView) {
    if c.state == State::WaitingForResponse {
        (c, ActionView::Enquire(missing_spec(c.slots)))
    } else {
        (c, ActionView::Idle)
    }
}

/// Whether a payload can be framed with chunks of `size` bytes: the size is
/// within what one block of the code holds, and the chunks are no more than
/// a transfer has ids for.
pub open spec fn fits(payload: Seq<u8>, size: int) -> bool {
    1 <= size <= MAX_CHUNK && chunk_spec(payload, size).len() <= MAX_PACKETS
}

/// `t` is the transmission that carries `payload` in chunks of `size`
/// bytes.
pub open spec fn transfer_of(
    t: TransmissionView,
    payload: Seq<u8>,
    size: int,
    is_enquiry: bool,
) -> bool {
    &&& t.header == fresh_header(chunk_spec(payload, size).len() as u16, is_enquiry)
    &&& carries(t.packets, chunk_spec(payload, size))
}

/// Frames a payload: cuts it into chunks of `chunk_size` bytes and builds a
/// sealed packet for each. Returns `None` where the payload does not fit.
pub fn frame_payload(payload: Vec<u8>, chunk_size: usize, is_enquiry: bool) -> (r: Option<
    Transmission,
>)
    ensures
        match r {
            Some(t) => fits(payload@, chunk_size as int) && transfer_of(
                t@,
                payload@,
                chunk_size as int,
                is_enquiry,
            ),
            None => !fits(payload@, chunk_size as int),
        },
{
    if chunk_size < 1 || chunk_size > MAX_CHUNK {
        return None;
    }
    let ghost bytes = payload@;
    let chunks: Vec<Vec<u8>> = chunk_data(payload, chunk_size);
    if chunks.len() > MAX_PACKETS {
        return None;
    }
    proof {
        crate::utilities::lemma_chunks(bytes, chunk_size as int);
        assert forall|i: int| 0 <= i < chunks.len() implies (#[trigger] chunks[i]).len()
            <= MAX_CHUNK by {
            assert(chunks[i]@ == rows(chunks@)[i]);
        }
    }
    let packets: Vec<Packet> = make_transmission(chunks);
    Some(Transmission::new(packets, is_enquiry))
}

/// Builds the enquiry that asks for `ids`: their little-endian bytes framed
/// in chunks of `chunk_size` bytes. Returns `None` where `chunk_size` is odd,
/// which would part the two bytes of an id, or where the list does not fit.
pub fn build_enquiry(ids: Vec<u16>, chunk_size: usize) -> (r: Option<Transmission>)
    ensures
        match r {
            Some(t) => chunk_size % 2 == 0 && fits(u16_le_spec(ids@), chunk_size as int)
                && transfer_of(t@, u16_le_spec(ids@), chunk_size as int, true),
            None => chunk_size % 2 != 0 || !fits(u16_le_spec(ids@), chunk_size as int),
        },
{
    if chunk_size % 2 != 0 {
        return None;
    }
    frame_payload(u16_to_u8_vec(ids), chunk_size, true)
}

/// Runs the decoder over every packet and returns the id and the corrected
/// data of those it could repair, in order.
pub fn recover(packets: &Vec<Packet>) -> (recovered: Vec<(u16, Vec<u8>)>)
    ensures
        recovered_view(recovered@) == recovered_spec(views(packets@)),
{
    let mut recovered: Vec<(u16, Vec<u8>)> = Vec::new();
    let mut i: usize = 0;
    while i < packets.len()
        invariant
            i <= packets.len(),
            recovered_view(recovered@) == recover_upto(views(packets@), i as int),
        decreases packets.len() - i,
    {
        let ghost before = recovered_view(recovered@);
        match packets[i].correct() {
            Ok((data, _)) => {
                recovered.push((packets[i].header.id, data));
                assert(recovered_view(recovered@) =~= before.push(
                    (packets[i as int]@.header.id, data@),
                ));
            },
            Err(_) => {},
        }
        i += 1;
    }
    recovered
}

/// Reads the ids that the recovered packets of an enquiry name.
pub fn requested_ids(recovered: &Vec<(u16, Vec<u8>)>) -> (ids: Vec<u16>)
    ensures
        ids@ == requested_spec(recovered_view(recovered@)),
{
    let mut ids: Vec<u16> = Vec::new();
    let mut i: usize = 0;
    let ghost f = |entry: (u16, Seq<u8>)| u16_from_le_spec(entry.1);
    proof {
        assert(recovered_view(recovered@).take(0).map_values(f) =~= seq![]);
    }
    while i < recovered.len()
        invariant
            i <= recovered.len(),
            f == |entry: (u16, Seq<u8>)| u16_from_le_spec(entry.1),
            ids@ == recovered_view(recovered@).take(i as int).map_values(f).flatten(),
        decreases recovered.len() - i,
    {
        let mut more: Vec<u16> = u16_from_le(&recovered[i].1);
        proof {
            let all = recovered_view(recovered@);
            assert(all.take(i + 1).map_values(f) =~= all.take(i as int).map_values(f).push(
                u16_from_le_spec(all[i as int].1),
            ));
            all.take(i as int).map_values(f).lemma_flatten_push(u16_from_le_spec(all[i as int].1));
        }
        ids.append(&mut more);
        i += 1;
    }
    assert(recovered_view(recovered@).take(i as int) =~= recovered_view(recovered@));
    ids
}

fn has_id(ids: &Vec<u16>, id: u16) -> (r: bool)
    ensures
        r == ids@.contains(id),
{
    let mut i: usize = 0;
    while i < ids.len()
        invariant
            i <= ids.len(),
            forall|k: int| 0 <= k < i ==> ids[k] != id,
        decreases ids.len() - i,
    {
        if ids[i] == id {
            return true;
        }
        i += 1;
    }
    false
}

fn copy_slots(slots: &Vec<Option<Vec<u8>>>) -> (r: Vec<Option<Vec<u8>>>)
    ensures
        slots_view(r@) == slots_view(slots@),
        r.len() == slots.len(),
{
    let mut r: Vec<Option<Vec<u8>>> = Vec::new();
    let mut i: usize = 0;
    while i < slots.len()
        invariant
            i <= slots.len(),
            r.len() == i,
            forall|k: int| 0 <= k < i ==> slots_view(r@)[k] == slots_view(slots@)[k],
        decreases slots.len() - i,
    {
        let slot: Option<Vec<u8>> = match &slots[i] {
            Some(data) => {
                let copy: Vec<u8> = copy_range(data, 0, data.len());
                assert(copy@ =~= data@);
                Some(copy)
            },
            None => None,
        };
        r.push(slot);
        i += 1;
    }
    assert(slots_view(r@) =~= slots_view(slots@));
    r
}

fn empty_slots(total: u16) -> (r: Vec<Option<Vec<u8>>>)
    ensures
        slots_view(r@) == fresh_slots(total as int),
        r.len() == total,
{
    let mut r: Vec<Option<Vec<u8>>> = Vec::new();
    let mut i: u16 = 0;
    while i < total
        invariant
            i <= total,
            r.len() == i,
            forall|k: int| 0 <= k < i ==> (#[trigger] r[k]) is None,
        decreases total - i,
    {
        r.push(None);
        i += 1;
    }
    assert(slots_view(r@) =~= fresh_slots(total as int));
    r
}

fn missing_ids(slots: &Vec<Option<Vec<u8>>>) -> (missing: Vec<u16>)
    requires
        slots.len() <= MAX_PACKETS,
    ensures
        missing@ == missing_spec(slots_view(slots@)),
{
    let mut missing: Vec<u16> = Vec::new();
    let mut i: usize = 0;
    while i < slots.len()
        invariant
            slots.len() <= MAX_PACKETS,
            i <= slots.len(),
            missing@ == missing_upto(slots_view(slots@), i as int),
        decreases slots.len() - i,
    {
        if slots[i].is_none() {
            missing.push((i + 1) as u16);
        }
        i += 1;
    }
    missing
}

fn payload_of(slots: &Vec<Option<Vec<u8>>>) -> (payload: Vec<u8>)
    ensures
        payload@ == payload_spec(slots_view(slots@)),
{
    let mut payload: Vec<u8> = Vec::new();
    let mut i: usize = 0;
    let ghost f = |slot: Option<Seq<u8>>| slot_bytes(slot);
    proof {
        assert(slots_view(slots@).take(0).map_values(f) =~= seq![]);
    }
    while i < slots.len()
        invariant
            i <= slots.len(),
            f == |slot: Option<Seq<u8>>| slot_bytes(slot),
            payload@ == slots_view(slots@).take(i as int).map_values(f).flatten(),
        decreases slots.len() - i,
    {
        proof {
            let all = slots_view(slots@);
            assert(all.take(i + 1).map_values(f) =~= all.take(i as int).map_values(f).push(
                slot_bytes(all[i as int]),
            ));
            all.take(i as int).map_values(f).lemma_flatten_push(slot_bytes(all[i as int]));
        }
        match &slots[i] {
            Some(data) => {
                let mut more: Vec<u8> = copy_range(data, 0, data.len());
                assert(more@ =~= data@);
                payload.append(&mut more);
            },
            None => {
                assert(payload@ + seq![] =~= payload@);
            },
        }
        i += 1;
    }
    assert(slots_view(slots@).take(i as int) =~= slots_view(slots@));
    payload
}

impl View for Controller {
    type V = ControllerView;

    closed spec fn view(&self) -> ControllerView {
        ControllerView {
            state: self.state,
            slots: slots_view(self.slots@),
            outbound: self.outbound@,
        }
    }
}

impl Controller {
    #[verifier::type_invariant]
    spec fn bounded(self) -> bool {
        self.slots.len() <= MAX_PACKETS
    }

    /// A controller in state `Normal` with an empty completion table, for a
    /// side that has sent `outbound`.
    pub fn new(outbound: Transmission) -> (r: Self)
        ensures
            r@ == (ControllerView { state: State::Normal, slots: seq![], outbound: outbound@ }),
    {
        let r = Controller { state: State::Normal, slots: Vec::new(), outbound };
        assert(slots_view(r.slots@) =~= seq![]);
        r
    }

    /// The state of the controller.
    pub fn state(&self) -> (r: State)
        ensures
            r == self@.state,
    {
        self.state
    }

    /// The ids of the packets that are still missing, in ascending order.
    pub fn missing(&self) -> (r: Vec<u16>)
        ensures
            r@ == missing_spec(self@.slots),
    {
        proof {
            use_type_invariant(self);
        }
        missing_ids(&self.slots)
    }

    /// Empties the completion table and returns to state `Normal`, for the
    /// transfer that comes next.
    pub fn reset(&mut self)
        ensures
            final(self)@ == (ControllerView {
                state: State::Normal,
                slots: seq![],
                outbound: old(self)@.outbound,
            }),
    {
        self.slots = Vec::new();
        self.state = State::Normal;
        assert(slots_view(self.slots@) =~= seq![]);
    }

    /// The answer to an enquiry for `ids`: the packets of the sent
    /// transmission that are asked for, under its header.
    pub fn answer(&self, ids: &Vec<u16>) -> (reply: Transmission)
        ensures
            reply@ == answer_spec(self@.outbound, ids@),
    {
        let mut packets: Vec<Packet> = Vec::new();
        let mut i: usize = 0;
        while i < self.outbound.packets.len()
            invariant
                i <= self.outbound.packets.len(),
                views(packets@) == select_upto(views(self.outbound.packets@), ids@, i as int),
            decreases self.outbound.packets.len() - i,
        {
            let ghost before = views(packets@);
            if has_id(ids, self.outbound.packets[i].header.id) {
                let packet: Packet = self.outbound.packets[i].clone();
                packets.push(packet);
                assert(views(packets@) =~= before.push(self.outbound.packets[i as int]@));
            }
            i += 1;
        }
        Transmission { header: self.outbound.header.clone(), packets }
    }

    /// The step for a data frame, from plain values: the count that the
    /// frame declares and the packets that came out of it repaired.
    pub fn receive(&mut self, total: u16, recovered: &Vec<(u16, Vec<u8>)>) -> (action: Action)
        ensures
            (final(self)@, action@) == receive_spec(old(self)@, total, recovered_view(recovered@)),
    {
        if total == SENTINEL {
            return Action::Abort;
        }
        let mut k: usize = 0;
        while k < recovered.len()
            invariant
                k <= recovered.len(),
                forall|j: int| 0 <= j < k ==> (#[trigger] recovered_view(recovered@)[j]).0
                    != SENTINEL,
            decreases recovered.len() - k,
        {
            if recovered[k].0 == SENTINEL {
                assert(recovered_view(recovered@)[k as int].0 == SENTINEL);
                return Action::Abort;
            }
            k += 1;
        }
        let mut slots: Vec<Option<Vec<u8>>> = if self.slots.len() == total as usize {
            copy_slots(&self.slots)
        } else {
            empty_slots(total)
        };
        let ghost base = slots_view(slots@);
        let mut i: usize = 0;
        proof {
            assert(recovered_view(recovered@).take(0) =~= seq![]);
        }
        while i < recovered.len()
            invariant
                i <= recovered.len(),
                slots.len() == total,
                slots_view(slots@) == store_spec(base, recovered_view(recovered@).take(i as int)),
            decreases recovered.len() - i,
        {
            let ghost before = slots_view(slots@);
            proof {
                let all = recovered_view(recovered@);
                assert(all.take(i + 1).drop_last() =~= all.take(i as int));
                assert(all.take(i + 1).last() == all[i as int]);
            }
            let id: u16 = recovered[i].0;
            if 1 <= id && id as usize <= slots.len() {
                let data: Vec<u8> = copy_range(&recovered[i].1, 0, recovered[i].1.len());
                assert(data@ =~= recovered[i as int].1@);
                slots.set(id as usize - 1, Some(data));
                assert(slots_view(slots@) =~= before.update(id - 1, Some(recovered[i as int].1@)));
            }
            i += 1;
        }
        assert(recovered_view(recovered@).take(i as int) =~= recovered_view(recovered@));
        let missing: Vec<u16> = missing_ids(&slots);
        if missing.len() == 0 {
            let payload: Vec<u8> = payload_of(&slots);
            self.slots = slots;
            self.state = State::Normal;
            Action::Deliver(payload)
        } else {
            self.slots = slots;
            self.state = State::WaitingForResponse;
            Action::Enquire(missing)
        }
    }

    /// The step for a decoded transmission.
    pub fn on_transmission(&mut self, t: &Transmission) -> (action: Action)
        ensures
            (final(self)@, action@) == handle_spec(old(self)@, t@),
    {
        let recovered: Vec<(u16, Vec<u8>)> = recover(&t.packets);
        if t.header.is_enquiry {
            let ids: Vec<u16> = requested_ids(&recovered);
            Action::Reply(self.answer(&ids))
        } else {
            self.receive(t.header.total_packets, &recovered)
        }
    }

    /// The step for a frame of received symbols, as `slice_data` cuts it
    /// out of the buffer.
    pub fn on_frame(&mut self, frame: &Vec<u8>) -> (action: Action)
        ensures
            (final(self)@, action@) == frame_spec(old(self)@, frame@),
    {
        let packed: Vec<u8> = pack_nibbles(frame);
        let mut decoder = ProtocolDecoder::new(packed);
        match decoder.decode() {
            Ok(t) => self.on_transmission(&t),
            Err(e) => Action::Discard(e),
        }
    }

    /// Takes one received symbol into the buffer. Once the buffer holds a
    /// complete frame, the frame is cut out, the buffer is emptied, and the
    /// frame is processed; until then nothing happens.
    pub fn feed(&mut self, buffer: &mut Vec<u8>, symbol: u8) -> (action: Action)
        ensures
            (final(self)@, final(buffer)@, action@) == feed_spec(
                old(self)@,
                old(buffer)@,
                symbol,
            ),
    {
        buffer.push(symbol);
        let ghost grown = buffer@;
        match start_and_end(buffer) {
            Some((start, end)) => {
                let mut received: Vec<u8> = Vec::new();
                std::mem::swap(buffer, &mut received);
                let frame: Vec<u8> = slice_data(received, start, end);
                proof {
                    let (s, e) = choose|s: int, e: int| frame_bounds(grown, s, e);
                    crate::utilities::lemma_frame_bounds_unique(
                        grown,
                        s,
                        e,
                        start as int,
                        end as int,
                    );
                }
                self.on_frame(&frame)
            },
            None => Action::Idle,
        }
    }

    /// The step for a timeout. While an answer is awaited, the buffer of
    /// received symbols is emptied and the same enquiry is asked for again.
    pub fn on_timeout(&mut self, buffer: &mut Vec<u8>) -> (action: Action)
        ensures
            (final(self)@, action@) == timeout_spec(old(self)@),
            final(buffer)@ == if old(self)@.state == State::WaitingForResponse {
                Seq::<u8>::empty()
            } else {
                old(buffer)@
            },
    {
        match self.state {
            State::WaitingForResponse => {
                buffer.clear();
                Action::Enquire(self.missing())
            },
            State::Normal => Action::Idle,
        }
    }
}

} // verus!
