//! What the layers guarantee together: a transfer that arrives undamaged is
//! delivered as it was sent, and a transfer that arrives in part is
//! completed by enquiries in a bounded number of rounds.

use crate::arq::{
    answer_spec, feed_spec, fits, frame_of, frame_spec, fresh_slots, has_frame, missing_spec,
    missing_upto, payload_spec, receive_spec, recover_upto, recovered_spec, requested_spec,
    select_upto, slot_bytes, store_spec, transfer_of, violates, ActionView, ControllerView,
    SENTINEL,
};
use crate::protocol::{
    carries, header_bytes, PacketView, State, TransmissionView, MAX_PACKETS,
};
use crate::symbols::encode_stream_spec;
use crate::utilities::{
    chunk_spec, end_at, frame_bounds, lemma_chunks, lemma_frame_bounds_unique,
    lemma_leading_noise, lemma_u16_le_round_trip, start_at, u16_from_le_spec, u16_le_spec,
};
use crate::wire::{lemma_prefix_holds_no_frame, lemma_stream_is_frame, lemma_wire_round_trip};
use vstd::prelude::*;

verus! {

/// The ids and data of a transfer's chunks, as an undamaged frame hands
/// them to the completion table.
pub open spec fn carried_entries(chunks: Seq<Seq<u8>>) -> Seq<(u16, Seq<u8>)> {
    Seq::new(chunks.len(), |i: int| ((i + 1) as u16, chunks[i]))
}

/// The data of the last entry with the given id, if there is one.
pub open spec fn last_entry(recovered: Seq<(u16, Seq<u8>)>, id: u16) -> Option<Seq<u8>>
    decreases recovered.len(),
{
    if recovered.len() == 0 {
        None
    } else if recovered.last().0 == id {
        Some(recovered.last().1)
    } else {
        last_entry(recovered.drop_last(), id)
    }
}

/// Every filled slot of the table holds the chunk of its id.
pub open spec fn holds(slots: Seq<Option<Seq<u8>>>, chunks: Seq<Seq<u8>>) -> bool {
    &&& slots.len() == chunks.len()
    &&& forall|i: int|
        0 <= i < slots.len() && (#[trigger] slots[i]) is Some ==> slots[i] == Some(chunks[i])
}

/// Every slot of the table is filled.
pub open spec fn complete(slots: Seq<Option<Seq<u8>>>) -> bool {
    forall|i: int| 0 <= i < slots.len() ==> (#[trigger] slots[i]) is Some
}

/// A sealed packet is decodable, its size field gives the length of its
/// data, and correction returns its data with a count of 0.
pub proof fn lemma_sealed_corrects(p: PacketView)
    requires
        p.sealed(),
    ensures
        p.framed(),
        p.decodable(),
        p.correct_spec() == Some((p.data, 0int)),
{
    assert(header_bytes(p.header).len() == 7);
    let block = p.block();
    assert(block.len() == 7 + p.data.len() + p.ecc.len());
    assert(p.data_of(block) =~= p.data);
}

/// Correction recovers every packet of a sequence of sealed packets: its
/// id with its data.
pub proof fn lemma_recover_sealed(packets: Seq<PacketView>, n: int)
    requires
        forall|i: int| 0 <= i < packets.len() ==> (#[trigger] packets[i]).sealed(),
        0 <= n <= packets.len(),
    ensures
        recover_upto(packets, n) == Seq::new(
            n as nat,
            |i: int| (packets[i].header.id, packets[i].data),
        ),
    decreases n,
{
    let all = Seq::new(n as nat, |i: int| (packets[i].header.id, packets[i].data));
    if n > 0 {
        lemma_recover_sealed(packets, n - 1);
        lemma_sealed_corrects(packets[n - 1]);
        assert(recover_upto(packets, n) =~= all);
    } else {
        assert(recover_upto(packets, n) =~= all);
    }
}

/// Writing recovered packets to a table keeps its length.
pub proof fn lemma_store_len(slots: Seq<Option<Seq<u8>>>, recovered: Seq<(u16, Seq<u8>)>)
    ensures
        store_spec(slots, recovered).len() == slots.len(),
    decreases recovered.len(),
{
    if recovered.len() > 0 {
        lemma_store_len(slots, recovered.drop_last());
    }
}

/// After recovered packets were written to a table, a slot holds the data
/// of the last of them with its id, and what it held before where none has
/// its id.
pub proof fn lemma_store_slot(
    slots: Seq<Option<Seq<u8>>>,
    recovered: Seq<(u16, Seq<u8>)>,
    i: int,
)
    requires
        0 <= i < slots.len(),
        slots.len() <= 0xFFFF,
    ensures
        store_spec(slots, recovered).len() == slots.len(),
        store_spec(slots, recovered)[i] == match last_entry(recovered, (i + 1) as u16) {
            Some(data) => Some(data),
            None => slots[i],
        },
    decreases recovered.len(),
{
    lemma_store_len(slots, recovered);
    if recovered.len() > 0 {
        lemma_store_len(slots, recovered.drop_last());
        lemma_store_slot(slots, recovered.drop_last(), i);
    }
}

/// The last entry with an id is one of the entries, and there is one
/// exactly where some entry has the id.
pub proof fn lemma_last_entry(recovered: Seq<(u16, Seq<u8>)>, id: u16)
    ensures
        match last_entry(recovered, id) {
            Some(data) => exists|k: int|
                0 <= k < recovered.len() && #[trigger] recovered[k] == (id, data),
            None => forall|k: int| 0 <= k < recovered.len() ==> (#[trigger] recovered[k]).0 != id,
        },
    decreases recovered.len(),
{
    if recovered.len() > 0 {
        let init = recovered.drop_last();
        lemma_last_entry(init, id);
        if recovered.last().0 == id {
            assert(recovered[recovered.len() - 1] == (id, recovered.last().1));
        } else {
            match last_entry(init, id) {
                Some(data) => {
                    let k = choose|k: int| 0 <= k < init.len() && #[trigger] init[k] == (id, data);
                    assert(recovered[k] == (id, data));
                },
                None => {
                    assert forall|k: int| 0 <= k < recovered.len() implies (
                    #[trigger] recovered[k]).0 != id by {
                        if k < init.len() {
                            assert(init[k] == recovered[k]);
                        }
                    }
                },
            }
        }
    }
}

/// The last entry with an id among two lists of entries, one after the
/// other, is the last one in the second list, or else in the first.
pub proof fn lemma_last_entry_concat(a: Seq<(u16, Seq<u8>)>, b: Seq<(u16, Seq<u8>)>, id: u16)
    ensures
        last_entry(a + b, id) == match last_entry(b, id) {
            Some(data) => Some(data),
            None => last_entry(a, id),
        },
    decreases b.len(),
{
    if b.len() == 0 {
        assert(a + b =~= a);
    } else {
        lemma_last_entry_concat(a, b.drop_last(), id);
        assert((a + b).drop_last() =~= a + b.drop_last());
        assert((a + b).last() == b.last());
    }
}

proof fn lemma_last_entry_single(entry: (u16, Seq<u8>), id: u16)
    ensures
        last_entry(seq![entry], id) == if entry.0 == id {
            Some(entry.1)
        } else {
            None
        },
{
    let none = Seq::<(u16, Seq<u8>)>::empty();
    assert(seq![entry].drop_last() =~= none);
    assert(last_entry(none, id) is None);
}

/// Writing the same packets a second time changes nothing.
pub proof fn lemma_store_twice(slots: Seq<Option<Seq<u8>>>, recovered: Seq<(u16, Seq<u8>)>)
    requires
        slots.len() <= 0xFFFF,
    ensures
        store_spec(slots, recovered + recovered) == store_spec(slots, recovered),
{
    let once = store_spec(slots, recovered);
    let twice = store_spec(slots, recovered + recovered);
    lemma_store_len(slots, recovered);
    lemma_store_len(slots, recovered + recovered);
    assert forall|i: int| 0 <= i < once.len() implies once[i] == twice[i] by {
        lemma_store_slot(slots, recovered, i);
        lemma_store_slot(slots, recovered + recovered, i);
        lemma_last_entry_concat(recovered, recovered, (i + 1) as u16);
    }
    assert(once =~= twice);
}

/// Packets with different ids can be written in either order.
pub proof fn lemma_store_order(
    slots: Seq<Option<Seq<u8>>>,
    first: (u16, Seq<u8>),
    second: (u16, Seq<u8>),
)
    requires
        slots.len() <= 0xFFFF,
        first.0 != second.0,
    ensures
        store_spec(slots, seq![first, second]) == store_spec(slots, seq![second, first]),
{
    let one = store_spec(slots, seq![first, second]);
    let other = store_spec(slots, seq![second, first]);
    lemma_store_len(slots, seq![first, second]);
    lemma_store_len(slots, seq![second, first]);
    assert(seq![first, second] =~= seq![first] + seq![second]);
    assert(seq![second, first] =~= seq![second] + seq![first]);
    assert forall|i: int| 0 <= i < one.len() implies one[i] == other[i] by {
        let id = (i + 1) as u16;
        lemma_store_slot(slots, seq![first, second], i);
        lemma_store_slot(slots, seq![second, first], i);
        lemma_last_entry_concat(seq![first], seq![second], id);
        lemma_last_entry_concat(seq![second], seq![first], id);
        lemma_last_entry_single(first, id);
        lemma_last_entry_single(second, id);
    }
    assert(one =~= other);
}

/// An id is among the missing ones exactly where it has a slot and the slot
/// is empty.
pub proof fn lemma_missing_upto(slots: Seq<Option<Seq<u8>>>, n: int, id: u16)
    requires
        0 <= n <= slots.len(),
        n <= 0xFFFF,
    ensures
        missing_upto(slots, n).contains(id) <==> (1 <= id <= n && slots[id - 1] is None),
        missing_upto(slots, n).len() <= n,
    decreases n,
{
    if n > 0 {
        lemma_missing_upto(slots, n - 1, id);
        let before = missing_upto(slots, n - 1);
        let now = missing_upto(slots, n);
        if slots[n - 1] is None {
            assert(now == before.push(n as u16));
            if id == n {
                assert(now[now.len() - 1] == id);
            }
            if before.contains(id) {
                let k = choose|k: int| 0 <= k < before.len() && before[k] == id;
                assert(now[k] == id);
            }
            if now.contains(id) && id != n {
                let k = choose|k: int| 0 <= k < now.len() && now[k] == id;
                assert(before[k] == id);
            }
        }
    }
}

/// The missing ids stand in ascending order.
pub proof fn lemma_missing_ascending(slots: Seq<Option<Seq<u8>>>, n: int)
    requires
        0 <= n <= slots.len(),
        n <= 0xFFFF,
    ensures
        forall|j: int|
            0 <= j < missing_upto(slots, n).len() ==> 1 <= #[trigger] missing_upto(slots, n)[j]
                <= n,
        forall|j: int, k: int|
            0 <= j < k < missing_upto(slots, n).len() ==> missing_upto(slots, n)[j] < missing_upto(
                slots,
                n,
            )[k],
    decreases n,
{
    if n > 0 {
        lemma_missing_ascending(slots, n - 1);
        let before = missing_upto(slots, n - 1);
        let now = missing_upto(slots, n);
        assert forall|j: int| 0 <= j < now.len() implies 1 <= #[trigger] now[j] <= n by {
            if j < before.len() {
                assert(now[j] == before[j]);
            }
        }
        assert forall|j: int, k: int| 0 <= j < k < now.len() implies now[j] < now[k] by {
            assert(now[j] == before[j]);
            if k < before.len() {
                assert(now[k] == before[k]);
            }
        }
    }
}

/// No id is missing exactly where every slot is filled.
pub proof fn lemma_complete(slots: Seq<Option<Seq<u8>>>)
    requires
        slots.len() <= 0xFFFF,
    ensures
        missing_spec(slots).len() == 0 <==> complete(slots),
{
    let missing = missing_spec(slots);
    if missing.len() > 0 {
        let id = missing[0];
        assert(missing.contains(id));
        lemma_missing_upto(slots, slots.len() as int, id);
        assert(slots[id - 1] is None);
    }
    if !complete(slots) {
        let i = choose|i: int| 0 <= i < slots.len() && !((#[trigger] slots[i]) is Some);
        lemma_missing_upto(slots, slots.len() as int, (i + 1) as u16);
        assert(missing.contains((i + 1) as u16));
    }
}

/// A table in which every slot holds the chunk of its id holds the chunks'
/// bytes in order.
pub proof fn lemma_payload_complete(slots: Seq<Option<Seq<u8>>>, chunks: Seq<Seq<u8>>)
    requires
        holds(slots, chunks),
        complete(slots),
    ensures
        payload_spec(slots) == chunks.flatten(),
{
    assert(slots.map_values(|slot: Option<Seq<u8>>| slot_bytes(slot)) =~~= chunks);
}

/// Writing packets that carry chunks of a transfer to a table that holds
/// chunks of the transfer gives a table that holds chunks of the transfer,
/// with every slot filled that was filled or whose id came in.
pub proof fn lemma_store_holds(
    slots: Seq<Option<Seq<u8>>>,
    recovered: Seq<(u16, Seq<u8>)>,
    chunks: Seq<Seq<u8>>,
)
    requires
        holds(slots, chunks),
        chunks.len() <= MAX_PACKETS,
        forall|k: int|
            0 <= k < recovered.len() ==> 1 <= (#[trigger] recovered[k]).0 <= chunks.len()
                && recovered[k].1 == chunks[recovered[k].0 - 1],
    ensures
        holds(store_spec(slots, recovered), chunks),
        forall|i: int|
            0 <= i < slots.len() ==> ((#[trigger] store_spec(slots, recovered)[i]) is Some <==> (
            slots[i] is Some || exists|k: int|
                0 <= k < recovered.len() && (#[trigger] recovered[k]).0 == i + 1)),
{
    let after = store_spec(slots, recovered);
    lemma_store_len(slots, recovered);
    assert forall|i: int| 0 <= i < slots.len() implies ((#[trigger] after[i]) is Some ==> after[i]
        == Some(chunks[i])) && (after[i] is Some <==> (slots[i] is Some || exists|k: int|
        0 <= k < recovered.len() && (#[trigger] recovered[k]).0 == i + 1)) by {
        lemma_store_slot(slots, recovered, i);
        lemma_last_entry(recovered, (i + 1) as u16);
    }
}

/// A transfer that arrives undamaged is delivered as it was sent: the frame
/// of a transmission that carries a payload makes the controller deliver
/// that payload, whatever its table held before, and leaves it in state
/// `Normal` with every slot filled.
#[verifier::spinoff_prover]
pub proof fn lemma_transfer_is_delivered(
    c: ControllerView,
    t: TransmissionView,
    payload: Seq<u8>,
    size: int,
)
    requires
        fits(payload, size),
        transfer_of(t, payload, size, false),
    ensures
        frame_spec(c, encode_stream_spec(t.items())).1 == ActionView::Deliver(payload),
        frame_spec(c, encode_stream_spec(t.items())).0.state == State::Normal,
        frame_spec(c, encode_stream_spec(t.items())).0.outbound == c.outbound,
        complete(frame_spec(c, encode_stream_spec(t.items())).0.slots),
        holds(frame_spec(c, encode_stream_spec(t.items())).0.slots, chunk_spec(payload, size)),
{
    let chunks = chunk_spec(payload, size);
    let n = chunks.len() as int;
    let total = n as u16;
    lemma_chunks(payload, size);
    assert forall|i: int| 0 <= i < t.packets.len() implies (#[trigger] t.packets[i]).framed() by {
        lemma_sealed_corrects(t.packets[i]);
    }
    lemma_wire_round_trip(t);
    lemma_recover_sealed(t.packets, n);
    let recovered = recovered_spec(t.packets);
    assert(recovered.len() == n);
    assert forall|k: int| 0 <= k < recovered.len() implies 1 <= (#[trigger] recovered[k]).0
        <= chunks.len() && recovered[k].1 == chunks[recovered[k].0 - 1] by {
        assert(t.packets[k].sealed());
    }
    let base = if c.slots.len() == total {
        c.slots
    } else {
        fresh_slots(total as int)
    };
    let slots = store_spec(base, recovered);
    lemma_store_len(base, recovered);
    assert forall|i: int| 0 <= i < slots.len() implies (#[trigger] slots[i]) == Some(
        chunks[i],
    ) by {
        lemma_store_slot(base, recovered, i);
        lemma_last_entry(recovered, (i + 1) as u16);
        assert(t.packets[i].sealed());
        assert(recovered[i].0 == (i + 1) as u16);
    }
    lemma_complete(slots);
    lemma_payload_complete(slots, chunks);
    assert(!violates(total, recovered));
}

/// Filling slots never adds a missing id, and filling an empty slot takes
/// one away: where every slot that is filled in `a` is filled in `b`, `b`
/// has no more missing ids than `a`, and fewer where slot `w` is empty in
/// `a` and filled in `b`.
pub proof fn lemma_missing_shrinks(
    a: Seq<Option<Seq<u8>>>,
    b: Seq<Option<Seq<u8>>>,
    n: int,
    w: int,
)
    requires
        a.len() == b.len(),
        0 <= n <= a.len(),
        forall|i: int| 0 <= i < n && (#[trigger] a[i]) is Some ==> b[i] is Some,
    ensures
        missing_upto(b, n).len() <= missing_upto(a, n).len(),
        (0 <= w < n && a[w] is None && b[w] is Some) ==> missing_upto(b, n).len() < missing_upto(
            a,
            n,
        ).len(),
    decreases n,
{
    if n > 0 {
        lemma_missing_shrinks(a, b, n - 1, w);
        assert(a[n - 1] is Some ==> b[n - 1] is Some);
    }
}

/// A round brings a packet for an empty slot.
pub open spec fn gains(slots: Seq<Option<Seq<u8>>>, recovered: Seq<(u16, Seq<u8>)>) -> bool {
    exists|k: int|
        0 <= k < recovered.len() && 1 <= (#[trigger] recovered[k]).0 <= slots.len()
            && slots[recovered[k].0 - 1] is None
}

/// The controller after a sequence of data frames of one transfer, given by
/// the packets that came out of each repaired.
pub open spec fn run_spec(
    c: ControllerView,
    total: u16,
    rounds: Seq<Seq<(u16, Seq<u8>)>>,
) -> ControllerView
    decreases rounds.len(),
{
    if rounds.len() == 0 {
        c
    } else {
        receive_spec(run_spec(c, total, rounds.drop_last()), total, rounds.last()).0
    }
}

/// One round: the table keeps its length and loses no packet; the number of
/// missing ids does not grow, and it falls where the round brings a packet
/// for an empty slot; the controller asks for exactly the ids that are
/// still missing, or delivers where none is.
#[verifier::spinoff_prover]
pub proof fn lemma_round(c: ControllerView, total: u16, recovered: Seq<(u16, Seq<u8>)>)
    requires
        c.slots.len() == total,
        !violates(total, recovered),
    ensures
        ({
            let (after, action) = receive_spec(c, total, recovered);
            &&& after.slots.len() == total
            &&& after.outbound == c.outbound
            &&& forall|i: int|
                0 <= i < total && (#[trigger] c.slots[i]) is Some ==> after.slots[i] is Some
            &&& missing_spec(after.slots).len() <= missing_spec(c.slots).len()
            &&& gains(c.slots, recovered) ==> missing_spec(after.slots).len() < missing_spec(
                c.slots,
            ).len()
            &&& if missing_spec(after.slots).len() == 0 {
                after.state == State::Normal && action == ActionView::Deliver(
                    payload_spec(after.slots),
                )
            } else {
                after.state == State::WaitingForResponse && action == ActionView::Enquire(
                    missing_spec(after.slots),
                )
            }
        }),
{
    let after = store_spec(c.slots, recovered);
    lemma_store_len(c.slots, recovered);
    assert forall|i: int| 0 <= i < total && (#[trigger] c.slots[i]) is Some implies after[i]
        is Some by {
        lemma_store_slot(c.slots, recovered, i);
    }
    lemma_missing_shrinks(c.slots, after, total as int, 0);
    if gains(c.slots, recovered) {
        let k = choose|k: int|
            0 <= k < recovered.len() && 1 <= (#[trigger] recovered[k]).0 <= c.slots.len()
                && c.slots[recovered[k].0 - 1] is None;
        let id = recovered[k].0;
        lemma_store_slot(c.slots, recovered, id - 1);
        lemma_last_entry(recovered, id);
        lemma_missing_shrinks(c.slots, after, total as int, id - 1);
    }
}

/// A round that brings a packet for every missing id completes the
/// transfer: the payload of the table is delivered and the state is
/// `Normal`.
pub proof fn lemma_round_completes(c: ControllerView, total: u16, recovered: Seq<(u16, Seq<u8>)>)
    requires
        c.slots.len() == total,
        !violates(total, recovered),
        forall|j: int|
            0 <= j < missing_spec(c.slots).len() ==> exists|k: int|
                0 <= k < recovered.len() && (#[trigger] recovered[k]).0 == #[trigger] missing_spec(
                    c.slots,
                )[j],
    ensures
        complete(receive_spec(c, total, recovered).0.slots),
        receive_spec(c, total, recovered).0.state == State::Normal,
        receive_spec(c, total, recovered).1 == ActionView::Deliver(
            payload_spec(receive_spec(c, total, recovered).0.slots),
        ),
{
    let after = store_spec(c.slots, recovered);
    let missing = missing_spec(c.slots);
    lemma_store_len(c.slots, recovered);
    assert forall|i: int| 0 <= i < after.len() implies (#[trigger] after[i]) is Some by {
        lemma_store_slot(c.slots, recovered, i);
        lemma_last_entry(recovered, (i + 1) as u16);
        if c.slots[i] is None {
            lemma_missing_upto(c.slots, total as int, (i + 1) as u16);
            let j = choose|j: int| 0 <= j < missing.len() && missing[j] == (i + 1) as u16;
            let k = choose|k: int|
                0 <= k < recovered.len() && (#[trigger] recovered[k]).0 == missing[j];
            assert(recovered[k].0 == (i + 1) as u16);
        }
    }
    lemma_complete(after);
}

/// Retransmission converges: no more enquiry rounds are needed than ids are
/// missing, which is at most the number of packets, provided that every
/// round brings at least one packet that was missing. After so many rounds
/// every slot is filled and the state is `Normal`.
#[verifier::spinoff_prover]
pub proof fn lemma_convergence(c: ControllerView, total: u16, rounds: Seq<Seq<(u16, Seq<u8>)>>)
    requires
        c.slots.len() == total,
        forall|r: int| 0 <= r < rounds.len() ==> !violates(total, #[trigger] rounds[r]),
        forall|r: int|
            0 <= r < rounds.len() ==> {
                let before = run_spec(c, total, #[trigger] rounds.take(r));
                missing_spec(before.slots).len() == 0 || gains(before.slots, rounds[r])
            },
    ensures
        run_spec(c, total, rounds).slots.len() == total,
        missing_spec(c.slots).len() <= total,
        missing_spec(run_spec(c, total, rounds).slots).len() <= missing_spec(c.slots).len(),
        missing_spec(run_spec(c, total, rounds).slots).len() == 0 || missing_spec(
            run_spec(c, total, rounds).slots,
        ).len() + rounds.len() <= missing_spec(c.slots).len(),
        rounds.len() >= missing_spec(c.slots).len() ==> complete(
            run_spec(c, total, rounds).slots,
        ),
        rounds.len() >= missing_spec(c.slots).len() && rounds.len() > 0 ==> run_spec(
            c,
            total,
            rounds,
        ).state == State::Normal,
    decreases rounds.len(),
{
    lemma_missing_upto(c.slots, total as int, 0);
    if rounds.len() > 0 {
        let init = rounds.drop_last();
        assert forall|r: int| 0 <= r < init.len() implies {
            let before = run_spec(c, total, #[trigger] init.take(r));
            missing_spec(before.slots).len() == 0 || gains(before.slots, init[r])
        } by {
            assert(init.take(r) =~= rounds.take(r));
            assert(init[r] == rounds[r]);
        }
        assert forall|r: int| 0 <= r < init.len() implies !violates(total, #[trigger] init[r]) by {
            assert(init[r] == rounds[r]);
        }
        lemma_convergence(c, total, init);
        let before = run_spec(c, total, init);
        assert(rounds.take(rounds.len() - 1) =~= init);
        assert(rounds[rounds.len() - 1] == rounds.last());
        lemma_round(before, total, rounds.last());
    }
    lemma_complete(run_spec(c, total, rounds).slots);
}

/// Reading two byte strings one after the other as 16-bit values gives the
/// values of the first followed by those of the second, where the first
/// has an even number of bytes.
pub proof fn lemma_u16_from_le_concat(a: Seq<u8>, b: Seq<u8>)
    requires
        a.len() % 2 == 0,
    ensures
        u16_from_le_spec(a + b) == u16_from_le_spec(a) + u16_from_le_spec(b),
{
    let joined = u16_from_le_spec(a + b);
    let parts = u16_from_le_spec(a) + u16_from_le_spec(b);
    assert(joined.len() == parts.len());
    assert forall|i: int| 0 <= i < joined.len() implies joined[i] == parts[i] by {
        let half = a.len() / 2;
        if i < half {
            assert((a + b)[2 * i] == a[2 * i]);
            assert((a + b)[2 * i + 1] == a[2 * i + 1]);
        } else {
            assert((a + b)[2 * i] == b[2 * (i - half)]);
            assert((a + b)[2 * i + 1] == b[2 * (i - half) + 1]);
        }
    }
    assert(joined =~= parts);
}

/// Chunks of an even size, each read as 16-bit values, give the values of
/// the whole byte string.
pub proof fn lemma_chunks_read_as_ids(bytes: Seq<u8>, size: int)
    requires
        size >= 1,
        size % 2 == 0,
    ensures
        chunk_spec(bytes, size).map_values(|c: Seq<u8>| u16_from_le_spec(c)).flatten()
            == u16_from_le_spec(bytes),
    decreases bytes.len(),
{
    let f = |c: Seq<u8>| u16_from_le_spec(c);
    let chunks = chunk_spec(bytes, size);
    if bytes.len() == 0 {
        assert(chunks.map_values(f) =~= seq![]);
        assert(chunks.map_values(f).flatten() =~= u16_from_le_spec(bytes));
    } else if bytes.len() <= size {
        assert(chunks.map_values(f) =~= seq![u16_from_le_spec(bytes)]);
        seq![u16_from_le_spec(bytes)].lemma_flatten_one_element();
    } else {
        let head = bytes.take(size);
        let tail = bytes.skip(size);
        lemma_chunks_read_as_ids(tail, size);
        let rest = chunk_spec(tail, size);
        assert(chunks.map_values(f) =~= seq![u16_from_le_spec(head)] + rest.map_values(f));
        vstd::seq_lib::lemma_flatten_concat(seq![u16_from_le_spec(head)], rest.map_values(f));
        seq![u16_from_le_spec(head)].lemma_flatten_one_element();
        lemma_u16_from_le_concat(head, tail);
        assert(head + tail =~= bytes);
    }
}

/// An enquiry names its ids: the recovered packets of the transmission that
/// `build_enquiry` makes for a list of ids read as that list.
pub proof fn lemma_enquiry_names_ids(enquiry: TransmissionView, ids: Seq<u16>, size: int)
    requires
        size % 2 == 0,
        fits(u16_le_spec(ids), size),
        transfer_of(enquiry, u16_le_spec(ids), size, true),
    ensures
        requested_spec(recovered_spec(enquiry.packets)) == ids,
{
    let bytes = u16_le_spec(ids);
    let chunks = chunk_spec(bytes, size);
    let packets = enquiry.packets;
    lemma_recover_sealed(packets, packets.len() as int);
    let recovered = recovered_spec(packets);
    assert(recovered.map_values(|entry: (u16, Seq<u8>)| u16_from_le_spec(entry.1))
        =~= chunks.map_values(|c: Seq<u8>| u16_from_le_spec(c)));
    lemma_chunks_read_as_ids(bytes, size);
    lemma_u16_le_round_trip(ids);
}

/// An enquiry that arrives undamaged is answered with the packets it asks
/// for: the controller replies with the header of the transmission it sent
/// and those of its packets whose id is named, and changes nothing.
#[verifier::spinoff_prover]
pub proof fn lemma_enquiry_is_answered(
    c: ControllerView,
    enquiry: TransmissionView,
    ids: Seq<u16>,
    size: int,
)
    requires
        size % 2 == 0,
        fits(u16_le_spec(ids), size),
        transfer_of(enquiry, u16_le_spec(ids), size, true),
    ensures
        frame_spec(c, encode_stream_spec(enquiry.items())) == (
            c,
            ActionView::Reply(answer_spec(c.outbound, ids)),
        ),
{
    assert forall|i: int| 0 <= i < enquiry.packets.len() implies (
    #[trigger] enquiry.packets[i]).framed() by {
        lemma_sealed_corrects(enquiry.packets[i]);
    }
    lemma_wire_round_trip(enquiry);
    lemma_enquiry_names_ids(enquiry, ids, size);
}

/// Every packet of an answer is a packet of the sent transmission whose id
/// was asked for.
pub proof fn lemma_select_sound(packets: Seq<PacketView>, ids: Seq<u16>, n: int, j: int) -> (i:
    int)
    requires
        0 <= n <= packets.len(),
        0 <= j < select_upto(packets, ids, n).len(),
    ensures
        0 <= i < n,
        packets[i] == select_upto(packets, ids, n)[j],
        ids.contains(packets[i].header.id),
    decreases n,
{
    let before = select_upto(packets, ids, n - 1);
    if j < before.len() {
        lemma_select_sound(packets, ids, n - 1, j)
    } else {
        n - 1
    }
}

/// Every packet of the sent transmission whose id was asked for is in the
/// answer, and the answer is no longer than the transmission.
pub proof fn lemma_select_complete(packets: Seq<PacketView>, ids: Seq<u16>, n: int, i: int) -> (j:
    int)
    requires
        0 <= i < n <= packets.len(),
        ids.contains(packets[i].header.id),
    ensures
        0 <= j < select_upto(packets, ids, n).len(),
        select_upto(packets, ids, n)[j] == packets[i],
    decreases n,
{
    let before = select_upto(packets, ids, n - 1);
    if i < n - 1 {
        lemma_select_complete(packets, ids, n - 1, i)
    } else {
        before.len() as int
    }
}

/// What comes out of an answer, undamaged: every packet of it is framed
/// and recovered as the chunk of its id, and every id that was asked for
/// and belongs to the transfer comes with a packet.
pub proof fn lemma_answer_recovers(packets: Seq<PacketView>, chunks: Seq<Seq<u8>>, ids: Seq<u16>)
    requires
        carries(packets, chunks),
        chunks.len() <= MAX_PACKETS,
    ensures
        ({
            let chosen = select_upto(packets, ids, packets.len() as int);
            let recovered = recovered_spec(chosen);
            &&& forall|j: int| 0 <= j < chosen.len() ==> (#[trigger] chosen[j]).framed()
            &&& forall|k: int|
                0 <= k < recovered.len() ==> 1 <= (#[trigger] recovered[k]).0 <= chunks.len()
                    && recovered[k].1 == chunks[recovered[k].0 - 1]
            &&& forall|id: u16|
                1 <= id <= chunks.len() && #[trigger] ids.contains(id) ==> exists|k: int|
                    0 <= k < recovered.len() && (#[trigger] recovered[k]).0 == id
        }),
{
    let n = packets.len() as int;
    let chosen = select_upto(packets, ids, n);
    assert forall|j: int| 0 <= j < chosen.len() implies (#[trigger] chosen[j]).sealed()
        && chosen[j].framed() && 1 <= chosen[j].header.id <= n && chosen[j].data
        == chunks[chosen[j].header.id - 1] by {
        let i = lemma_select_sound(packets, ids, n, j);
        assert(packets[i].sealed());
        lemma_sealed_corrects(packets[i]);
    }
    lemma_recover_sealed(chosen, chosen.len() as int);
    let recovered = recovered_spec(chosen);
    assert forall|k: int| 0 <= k < recovered.len() implies 1 <= (#[trigger] recovered[k]).0
        <= chunks.len() && recovered[k].1 == chunks[recovered[k].0 - 1] by {
        assert(chosen[k].sealed());
    }
    assert forall|id: u16| 1 <= id <= chunks.len() && #[trigger] ids.contains(id) implies exists|
        k: int,
    |
        0 <= k < recovered.len() && (#[trigger] recovered[k]).0 == id by {
        let i = id - 1;
        assert(packets[i].sealed());
        let j = lemma_select_complete(packets, ids, n, i);
        assert(recovered[j].0 == id);
    }
}

/// Packets of the transfer that cover every missing id fill the table: it
/// holds the chunks of the transfer in every slot.
pub proof fn lemma_filling_completes(
    slots: Seq<Option<Seq<u8>>>,
    recovered: Seq<(u16, Seq<u8>)>,
    chunks: Seq<Seq<u8>>,
)
    requires
        holds(slots, chunks),
        chunks.len() <= MAX_PACKETS,
        forall|k: int|
            0 <= k < recovered.len() ==> 1 <= (#[trigger] recovered[k]).0 <= chunks.len()
                && recovered[k].1 == chunks[recovered[k].0 - 1],
        forall|i: int|
            0 <= i < slots.len() && (#[trigger] slots[i]) is None ==> exists|k: int|
                0 <= k < recovered.len() && (#[trigger] recovered[k]).0 == i + 1,
    ensures
        holds(store_spec(slots, recovered), chunks),
        complete(store_spec(slots, recovered)),
        missing_spec(store_spec(slots, recovered)).len() == 0,
        payload_spec(store_spec(slots, recovered)) == chunks.flatten(),
        !violates(chunks.len() as u16, recovered),
{
    lemma_store_holds(slots, recovered, chunks);
    let after = store_spec(slots, recovered);
    assert forall|i: int| 0 <= i < after.len() implies (#[trigger] after[i]) is Some by {
        if slots[i] is None {
            let k = choose|k: int|
                0 <= k < recovered.len() && (#[trigger] recovered[k]).0 == i + 1;
        }
    }
    lemma_complete(after);
    lemma_payload_complete(after, chunks);
    if violates(chunks.len() as u16, recovered) {
        let k = choose|k: int|
            0 <= k < recovered.len() && (#[trigger] recovered[k]).0 == SENTINEL;
        assert(1 <= recovered[k].0 <= chunks.len());
    }
}

/// The answer to an enquiry completes the transfer: where the table holds
/// chunks of the transfer and the enquiry names every missing id, the frame
/// of the answer makes the controller deliver the payload.
#[verifier::spinoff_prover]
pub proof fn lemma_answer_completes(
    c: ControllerView,
    t: TransmissionView,
    payload: Seq<u8>,
    size: int,
    ids: Seq<u16>,
)
    requires
        fits(payload, size),
        transfer_of(t, payload, size, false),
        holds(c.slots, chunk_spec(payload, size)),
        forall|j: int|
            0 <= j < missing_spec(c.slots).len() ==> ids.contains(
                #[trigger] missing_spec(c.slots)[j],
            ),
    ensures
        frame_spec(c, encode_stream_spec(answer_spec(t, ids).items())).1 == ActionView::Deliver(
            payload,
        ),
        frame_spec(c, encode_stream_spec(answer_spec(t, ids).items())).0.state == State::Normal,
        complete(frame_spec(c, encode_stream_spec(answer_spec(t, ids).items())).0.slots),
{
    let chunks = chunk_spec(payload, size);
    let n = chunks.len() as int;
    let reply = answer_spec(t, ids);
    let recovered = recovered_spec(reply.packets);
    let missing = missing_spec(c.slots);
    lemma_chunks(payload, size);
    lemma_answer_recovers(t.packets, chunks, ids);
    lemma_wire_round_trip(reply);
    assert forall|i: int| 0 <= i < c.slots.len() && (#[trigger] c.slots[i]) is None implies exists|
        k: int,
    |
        0 <= k < recovered.len() && (#[trigger] recovered[k]).0 == i + 1 by {
        lemma_missing_upto(c.slots, n, (i + 1) as u16);
        let m = choose|m: int| 0 <= m < missing.len() && missing[m] == (i + 1) as u16;
        assert(ids.contains(missing[m]));
    }
    lemma_filling_completes(c.slots, recovered, chunks);
}

/// A frame that arrives in part leaves a table that holds chunks of the
/// transfer: where the packets that came out repaired are packets of the
/// transfer, the controller delivers the payload if none is missing and
/// asks for the missing ids otherwise.
#[verifier::spinoff_prover]
pub proof fn lemma_partial_transfer(
    c: ControllerView,
    chunks: Seq<Seq<u8>>,
    recovered: Seq<(u16, Seq<u8>)>,
)
    requires
        chunks.len() <= MAX_PACKETS,
        c.slots.len() == chunks.len() ==> holds(c.slots, chunks),
        forall|k: int|
            0 <= k < recovered.len() ==> 1 <= (#[trigger] recovered[k]).0 <= chunks.len()
                && recovered[k].1 == chunks[recovered[k].0 - 1],
    ensures
        ({
            let (after, action) = receive_spec(c, chunks.len() as u16, recovered);
            &&& holds(after.slots, chunks)
            &&& if complete(after.slots) {
                after.state == State::Normal && action == ActionView::Deliver(chunks.flatten())
            } else {
                after.state == State::WaitingForResponse && action == ActionView::Enquire(
                    missing_spec(after.slots),
                )
            }
        }),
{
    let total = chunks.len() as u16;
    let base = if c.slots.len() == total {
        c.slots
    } else {
        fresh_slots(total as int)
    };
    assert(!violates(total, recovered)) by {
        if violates(total, recovered) {
            let k = choose|k: int|
                0 <= k < recovered.len() && (#[trigger] recovered[k]).0 == SENTINEL;
            assert(1 <= recovered[k].0 <= chunks.len());
        }
    }
    lemma_store_holds(base, recovered, chunks);
    let after = store_spec(base, recovered);
    lemma_complete(after);
    if complete(after) {
        lemma_payload_complete(after, chunks);
    }
}

/// The controller, the buffer and the actions other than `Idle`, in order,
/// after a sequence of symbols was fed one by one.
pub open spec fn feed_all_spec(c: ControllerView, buffer: Seq<u8>, symbols: Seq<u8>) -> (
    ControllerView,
    Seq<u8>,
    Seq<ActionView>,
)
    decreases symbols.len(),
{
    if symbols.len() == 0 {
        (c, buffer, seq![])
    } else {
        let before = feed_all_spec(c, buffer, symbols.drop_last());
        let step = feed_spec(before.0, before.1, symbols.last());
        (
            step.0,
            step.1,
            if step.2 is Idle {
                before.2
            } else {
                before.2.push(step.2)
            },
        )
    }
}

/// A frame behind symbols that hold no Start marker is a frame of what
/// follows them.
pub proof fn lemma_frame_lies_behind_noise(noise: Seq<u8>, buf: Seq<u8>, s: int, e: int)
    requires
        frame_bounds(noise + buf, s, e),
        forall|i: int| 0 <= i < noise.len() ==> !start_at(noise + buf, i),
    ensures
        s >= noise.len(),
        frame_bounds(buf, s - noise.len(), e - noise.len()),
{
    let n: int = noise.len() as int;
    let all = noise + buf;
    assert forall|i: int| n <= i implies (start_at(all, i) == start_at(buf, i - n) && end_at(
        all,
        i,
    ) == end_at(buf, i - n)) by {
        if i + 3 <= all.len() {
            assert(all[i] == buf[i - n]);
            assert(all[i + 1] == buf[i + 1 - n]);
            assert(all[i + 2] == buf[i + 2 - n]);
        }
    }
    assert forall|i: int| 0 <= i < s - n implies !start_at(buf, i) by {
        assert(start_at(all, i + n) == start_at(buf, i));
    }
    assert forall|i: int| e - n < i && (i - (s - n)) % 3 == 0 implies !end_at(buf, i) by {
        assert(end_at(all, i + n) == end_at(buf, i));
        assert(e < i + n && ((i + n) - s) % 3 == 0);
    }
}

/// A Start marker in the first symbols of a buffer is a Start marker of the
/// buffer.
pub proof fn lemma_start_in_prefix(all: Seq<u8>, k: int, i: int)
    requires
        0 <= k <= all.len(),
        start_at(all.take(k), i),
    ensures
        start_at(all, i),
{
    let part = all.take(k);
    assert(part[i] == all[i] && part[i + 1] == all[i + 1] && part[i + 2] == all[i + 2]);
}

#[verifier::spinoff_prover]
proof fn lemma_no_frame_yet_at(noise: Seq<u8>, t: TransmissionView, k: int, s: int, e: int)
    requires
        forall|i: int|
            0 <= i < noise.len() ==> !start_at(noise + encode_stream_spec(t.items()), i),
        0 <= k < noise.len() + encode_stream_spec(t.items()).len(),
    ensures
        !frame_bounds((noise + encode_stream_spec(t.items())).take(k), s, e),
{
    let stream = encode_stream_spec(t.items());
    let all = noise + stream;
    let part = all.take(k);
    let n: int = noise.len() as int;
    if frame_bounds(part, s, e) {
        if k <= n {
            assert(start_at(part, s));
            lemma_start_in_prefix(all, k, s);
        } else {
            let rest = stream.take(k - n);
            assert(part =~= noise + rest);
            assert forall|i: int| 0 <= i < noise.len() implies !start_at(noise + rest, i) by {
                if start_at(noise + rest, i) {
                    lemma_start_in_prefix(all, k, i);
                }
            }
            lemma_frame_lies_behind_noise(noise, rest, s, e);
            lemma_prefix_holds_no_frame(t, k - n);
        }
    }
}

/// While symbols of a transmission are still to come, the buffer holds no
/// frame, whatever symbols without a Start marker stand in front.
pub proof fn lemma_no_frame_yet(noise: Seq<u8>, t: TransmissionView, k: int)
    requires
        forall|i: int|
            0 <= i < noise.len() ==> !start_at(noise + encode_stream_spec(t.items()), i),
        0 <= k < noise.len() + encode_stream_spec(t.items()).len(),
    ensures
        !has_frame((noise + encode_stream_spec(t.items())).take(k)),
{
    let part = (noise + encode_stream_spec(t.items())).take(k);
    assert forall|s: int, e: int| !frame_bounds(part, s, e) by {
        lemma_no_frame_yet_at(noise, t, k, s, e);
    }
}

/// Feeding symbols that complete no frame collects them in the buffer and
/// does nothing else.
pub proof fn lemma_feeding_a_part(c: ControllerView, noise: Seq<u8>, t: TransmissionView, k: int)
    requires
        forall|i: int|
            0 <= i < noise.len() ==> !start_at(noise + encode_stream_spec(t.items()), i),
        0 <= k < noise.len() + encode_stream_spec(t.items()).len(),
    ensures
        feed_all_spec(c, Seq::empty(), (noise + encode_stream_spec(t.items())).take(k)) == (
            c,
            (noise + encode_stream_spec(t.items())).take(k),
            Seq::<ActionView>::empty(),
        ),
    decreases k,
{
    let all = noise + encode_stream_spec(t.items());
    let part = all.take(k);
    if k == 0 {
        assert(part =~= Seq::<u8>::empty());
    } else {
        lemma_feeding_a_part(c, noise, t, k - 1);
        lemma_no_frame_yet(noise, t, k);
        assert(part.drop_last() =~= all.take(k - 1));
        assert(all.take(k - 1).push(part.last()) =~= part);
    }
}

/// A frame never leaves the controller idle: it delivers, asks, answers,
/// drops the frame or aborts.
pub proof fn lemma_frame_acts(c: ControllerView, frame: Seq<u8>)
    ensures
        !(frame_spec(c, frame).1 is Idle),
{
}

/// The symbols of a transmission behind symbols that hold no Start marker
/// are a buffer with one frame: the transmission's stream.
#[verifier::spinoff_prover]
pub proof fn lemma_whole_stream_is_found(noise: Seq<u8>, t: TransmissionView)
    requires
        forall|i: int|
            0 <= i < noise.len() ==> !start_at(noise + encode_stream_spec(t.items()), i),
    ensures
        has_frame(noise + encode_stream_spec(t.items())),
        frame_of(noise + encode_stream_spec(t.items())) == encode_stream_spec(t.items()),
{
    let stream = encode_stream_spec(t.items());
    let all = noise + stream;
    let n: int = noise.len() as int;
    lemma_stream_is_frame(t);
    lemma_leading_noise(noise, stream, 0, stream.len() - 3);
    assert(frame_bounds(all, n, n + stream.len() - 3));
    let (s, e) = choose|s: int, e: int| frame_bounds(all, s, e);
    lemma_frame_bounds_unique(all, s, e, n, n + stream.len() - 3);
    assert(all.subrange(n, n + stream.len()) =~= stream);
}

proof fn lemma_feeding_the_last(c: ControllerView, fed: Seq<u8>, frame: Seq<u8>)
    requires
        fed.len() > 0,
        feed_all_spec(c, Seq::empty(), fed.drop_last()) == (
            c,
            fed.drop_last(),
            Seq::<ActionView>::empty(),
        ),
        has_frame(fed),
        frame_of(fed) == frame,
        !(frame_spec(c, frame).1 is Idle),
    ensures
        feed_all_spec(c, Seq::empty(), fed) == (
            frame_spec(c, frame).0,
            Seq::<u8>::empty(),
            seq![frame_spec(c, frame).1],
        ),
{
    assert(fed.drop_last().push(fed.last()) =~= fed);
    assert(Seq::<ActionView>::empty().push(frame_spec(c, frame).1) =~= seq![
        frame_spec(c, frame).1,
    ]);
}

/// Feeding the symbols of a transmission, one by one and behind any symbols
/// that hold no Start marker, makes the controller act once: on the last
/// symbol, as `frame_spec` says for the transmission's stream. The buffer is
/// empty afterwards.
#[verifier::spinoff_prover]
pub proof fn lemma_feeding_a_stream(c: ControllerView, noise: Seq<u8>, t: TransmissionView)
    requires
        forall|i: int|
            0 <= i < noise.len() ==> !start_at(noise + encode_stream_spec(t.items()), i),
    ensures
        feed_all_spec(c, Seq::empty(), noise + encode_stream_spec(t.items())) == (
            frame_spec(c, encode_stream_spec(t.items())).0,
            Seq::<u8>::empty(),
            seq![frame_spec(c, encode_stream_spec(t.items())).1],
        ),
{
    let stream = encode_stream_spec(t.items());
    let all = noise + stream;
    let k: int = all.len() - 1;
    lemma_stream_is_frame(t);
    lemma_frame_acts(c, stream);
    lemma_feeding_a_part(c, noise, t, k);
    lemma_whole_stream_is_found(noise, t);
    assert(all.drop_last() =~= all.take(k));
    lemma_feeding_the_last(c, all, stream);
}

/// A transfer that is fed to the controller symbol by symbol, behind any
/// symbols that hold no Start marker, is delivered as it was sent: the
/// controller acts once and delivers the payload.
pub proof fn lemma_feeding_a_transfer(
    c: ControllerView,
    noise: Seq<u8>,
    t: TransmissionView,
    payload: Seq<u8>,
    size: int,
)
    requires
        fits(payload, size),
        transfer_of(t, payload, size, false),
        forall|i: int|
            0 <= i < noise.len() ==> !start_at(noise + encode_stream_spec(t.items()), i),
    ensures
        feed_all_spec(c, Seq::empty(), noise + encode_stream_spec(t.items())).2 == seq![
            ActionView::Deliver(payload),
        ],
        feed_all_spec(c, Seq::empty(), noise + encode_stream_spec(t.items())).1 == Seq::<
            u8,
        >::empty(),
        feed_all_spec(c, Seq::empty(), noise + encode_stream_spec(t.items())).0.state
            == State::Normal,
        complete(feed_all_spec(c, Seq::empty(), noise + encode_stream_spec(t.items())).0.slots),
{
    lemma_feeding_a_stream(c, noise, t);
    lemma_transfer_is_delivered(c, t, payload, size);
}

} // verus!
