//! Byte-level helpers: chunking, integer splitting, the frame synchroniser
//! and the expansion of a packed stream into wire writes.

use crate::protocol::{carries, views, Packet, MAX_CHUNK, MAX_PACKETS};
use crate::symbols::{decode_triplet, group_spec, wire_spec};
use vstd::prelude::*;

verus! {

/// Decodes three packed bytes, six symbols, into two bytes with their
/// control flags.
pub fn nibbles_to_bytes(nibbles: [u8; 3]) -> (r: Vec<(u8, bool)>)
    ensures
        r@ == group_spec(nibbles[0], nibbles[1], nibbles[2]),
{
    let first: (u8, bool) = decode_triplet(nibbles[0] >> 4, nibbles[0] & 0x0F, nibbles[1] >> 4);
    let second: (u8, bool) = decode_triplet(
        nibbles[1] & 0x0F,
        nibbles[2] >> 4,
        nibbles[2] & 0x0F,
    );
    let mut r: Vec<(u8, bool)> = Vec::new();
    r.push(first);
    r.push(second);
    assert(r@ =~= group_spec(nibbles[0], nibbles[1], nibbles[2]));
    r
}

/// The bytes of `src` from index `from` up to, not including, `to`.
pub fn copy_range(src: &Vec<u8>, from: usize, to: usize) -> (r: Vec<u8>)
    requires
        from <= to <= src.len(),
    ensures
        r@ == src@.subrange(from as int, to as int),
{
    let mut r: Vec<u8> = Vec::new();
    let mut i: usize = from;
    while i < to
        invariant
            from <= i <= to <= src.len(),
            r@ == src@.subrange(from as int, i as int),
        decreases to - i,
    {
        r.push(src[i]);
        i += 1;
        assert(r@ =~= src@.subrange(from as int, i as int));
    }
    r
}

/// The upper and the lower byte of a 16-bit value.
pub open spec fn split_u16_spec(value: u16) -> Seq<u8> {
    seq![(value >> 8) as u8, (value & 0xFF) as u8]
}

/// The 16-bit value with upper byte `high` and lower byte `low`.
pub open spec fn join_u16(high: u8, low: u8) -> u16 {
    ((high as u16) << 8) | (low as u16)
}

/// Splits a 16-bit value into its upper and its lower byte.
pub fn split_u16(bytes: u16) -> (r: [u8; 2])
    ensures
        r@ == split_u16_spec(bytes),
        join_u16(r[0], r[1]) == bytes,
{
    assert(bytes >> 8 <= 0xFF && bytes & 0xFF <= 0xFF) by (bit_vector);
    let high: u8 = (bytes >> 8) as u8;
    let low: u8 = (bytes & 0xFF) as u8;
    proof {
        lemma_split_join(bytes);
    }
    let r: [u8; 2] = [high, low];
    assert(r@ =~= split_u16_spec(bytes));
    r
}

/// Joining the two bytes of a split value gives the value back.
pub proof fn lemma_split_join(value: u16)
    ensures
        join_u16((value >> 8) as u8, (value & 0xFF) as u8) == value,
{
    assert((((value >> 8) as u8 as u16) << 8) | ((value & 0xFF) as u8 as u16) == value)
        by (bit_vector);
}

/// Splitting the value joined from two bytes gives the two bytes back.
pub proof fn lemma_join_split(high: u8, low: u8)
    ensures
        (join_u16(high, low) >> 8) as u8 == high,
        (join_u16(high, low) & 0xFF) as u8 == low,
{
    assert(((((high as u16) << 8) | (low as u16)) >> 8) as u8 == high) by (bit_vector);
    assert(((((high as u16) << 8) | (low as u16)) & 0xFF) as u8 == low) by (bit_vector);
}

/// The byte strings that a vector of vectors holds.
pub open spec fn rows(v: Seq<Vec<u8>>) -> Seq<Seq<u8>> {
    Seq::new(v.len(), |i: int| v[i]@)
}

/// `data` cut into consecutive pieces of `size` bytes, the last one shorter
/// where the length is no multiple of `size`. No piece is empty.
pub open spec fn chunk_spec(data: Seq<u8>, size: int) -> Seq<Seq<u8>>
    decreases data.len(),
{
    if size <= 0 || data.len() == 0 {
        seq![]
    } else if data.len() <= size {
        seq![data]
    } else {
        seq![data.take(size)] + chunk_spec(data.skip(size), size)
    }
}

/// Cuts `data` into consecutive chunks of `size` bytes.
pub fn chunk_data(data: Vec<u8>, size: usize) -> (chunks: Vec<Vec<u8>>)
    requires
        size >= 1,
    ensures
        rows(chunks@) == chunk_spec(data@, size as int),
{
    let n: usize = data.len();
    let mut chunks: Vec<Vec<u8>> = Vec::new();
    let ghost mut done: Seq<Seq<u8>> = seq![];
    let mut pos: usize = 0;
    proof {
        assert(data@.skip(0) =~= data@);
    }
    while pos < n
        invariant
            size >= 1,
            n == data.len(),
            pos <= n,
            chunks.len() == done.len(),
            forall|i: int| 0 <= i < chunks.len() ==> (#[trigger] chunks[i])@ == done[i],
            done + chunk_spec(data@.skip(pos as int), size as int) == chunk_spec(
                data@,
                size as int,
            ),
        decreases n - pos,
    {
        let end: usize = if n - pos <= size {
            n
        } else {
            pos + size
        };
        let piece: Vec<u8> = copy_range(&data, pos, end);
        proof {
            let rest = data@.skip(pos as int);
            if n - pos <= size {
                assert(rest =~= piece@);
                assert(data@.skip(end as int).len() == 0);
                assert(chunk_spec(rest, size as int) =~= seq![piece@] + chunk_spec(
                    data@.skip(end as int),
                    size as int,
                ));
            } else {
                assert(rest.take(size as int) =~= piece@);
                assert(rest.skip(size as int) =~= data@.skip(end as int));
            }
            assert(done.push(piece@) + chunk_spec(data@.skip(end as int), size as int) =~= done + (
            seq![piece@] + chunk_spec(data@.skip(end as int), size as int)));
            done = done.push(piece@);
        }
        chunks.push(piece);
        pos = end;
    }
    proof {
        assert(done + chunk_spec(data@.skip(pos as int), size as int) =~= done);
        assert(rows(chunks@) =~= done);
    }
    chunks
}

/// Every chunk holds between 1 and `size` bytes, and the chunks in order
/// make up the data.
pub proof fn lemma_chunks(data: Seq<u8>, size: int)
    requires
        size >= 1,
    ensures
        chunk_spec(data, size).flatten() == data,
        forall|i: int|
            0 <= i < chunk_spec(data, size).len() ==> 1 <= (#[trigger] chunk_spec(
                data,
                size,
            )[i]).len() <= size,
        chunk_spec(data, size).len() <= data.len(),
        chunk_spec(data, size).len() * size >= data.len(),
    decreases data.len(),
{
    let chunks = chunk_spec(data, size);
    if data.len() == 0 {
        assert(chunks.flatten() =~= data);
    } else if data.len() <= size {
        chunks.lemma_flatten_one_element();
    } else {
        let tail = chunk_spec(data.skip(size), size);
        lemma_chunks(data.skip(size), size);
        vstd::seq_lib::lemma_flatten_concat(seq![data.take(size)], tail);
        seq![data.take(size)].lemma_flatten_one_element();
        assert(data.take(size) + data.skip(size) =~= data);
        assert(chunks.len() * size == size + tail.len() * size) by (nonlinear_arith)
            requires
                chunks.len() == 1 + tail.len(),
        ;
    }
}

/// Builds the packets of a transfer: one for each chunk, with ids counted
/// from 1 in the order of the chunks.
pub fn make_transmission(data: Vec<Vec<u8>>) -> (packets: Vec<Packet>)
    requires
        data.len() <= MAX_PACKETS,
        forall|i: int| 0 <= i < data.len() ==> (#[trigger] data[i]).len() <= MAX_CHUNK,
    ensures
        carries(views(packets@), rows(data@)),
{
    let mut id: u16 = 0;
    let mut packets: Vec<Packet> = Vec::new();
    let mut i: usize = 0;
    while i < data.len()
        invariant
            data.len() <= MAX_PACKETS,
            forall|k: int| 0 <= k < data.len() ==> (#[trigger] data[k]).len() <= MAX_CHUNK,
            i <= data.len(),
            id == i,
            packets.len() == i,
            forall|k: int|
                0 <= k < i ==> {
                    &&& (#[trigger] packets[k])@.sealed()
                    &&& packets[k]@.data == data[k]@
                    &&& packets[k]@.header.id == k + 1
                },
        decreases data.len() - i,
    {
        id += 1;
        let chunk: Vec<u8> = copy_range(&data[i], 0, data[i].len());
        assert(chunk@ =~= data[i as int]@);
        packets.push(Packet::new(chunk, id));
        i += 1;
    }
    packets
}

/// Little-endian bytes of a list of 16-bit values: the lower byte of each
/// value first.
pub open spec fn u16_le_spec(values: Seq<u16>) -> Seq<u8> {
    Seq::new(
        2 * values.len(),
        |k: int|
            if k % 2 == 0 {
                (values[k / 2] & 0xFF) as u8
            } else {
                (values[k / 2] >> 8) as u8
            },
    )
}

/// The 16-bit values that a little-endian byte string holds; an odd last
/// byte is left out.
pub open spec fn u16_from_le_spec(bytes: Seq<u8>) -> Seq<u16> {
    Seq::new(bytes.len() / 2, |i: int| join_u16(bytes[2 * i + 1], bytes[2 * i]))
}

/// Writes each value as two bytes, the lower one first.
pub fn u16_to_u8_vec(input: Vec<u16>) -> (output: Vec<u8>)
    ensures
        output@ == u16_le_spec(input@),
{
    let mut output: Vec<u8> = Vec::new();
    let mut i: usize = 0;
    while i < input.len()
        invariant
            i <= input.len(),
            output.len() == 2 * i,
            forall|k: int| 0 <= k < 2 * i ==> output[k] == #[trigger] u16_le_spec(input@)[k],
        decreases input.len() - i,
    {
        let value: u16 = input[i];
        assert(value >> 8 <= 0xFF && value & 0xFF <= 0xFF) by (bit_vector);
        output.push((value & 0xFF) as u8);
        output.push((value >> 8) as u8);
        i += 1;
    }
    assert(output@ =~= u16_le_spec(input@));
    output
}

/// Reads a little-endian byte string as 16-bit values; an odd last byte is
/// left out.
pub fn u16_from_le(bytes: &Vec<u8>) -> (values: Vec<u16>)
    ensures
        values@ == u16_from_le_spec(bytes@),
{
    let mut values: Vec<u16> = Vec::new();
    let pairs: usize = bytes.len() / 2;
    let mut i: usize = 0;
    while i < pairs
        invariant
            pairs == bytes.len() / 2,
            i <= pairs,
            values.len() == i,
            forall|k: int| 0 <= k < i ==> values[k] == #[trigger] u16_from_le_spec(bytes@)[k],
        decreases pairs - i,
    {
        let low: u8 = bytes[2 * i];
        let high: u8 = bytes[2 * i + 1];
        values.push(((high as u16) << 8) | (low as u16));
        i += 1;
    }
    assert(values@ =~= u16_from_le_spec(bytes@));
    values
}

/// Reading back what `u16_to_u8_vec` wrote gives the values.
pub proof fn lemma_u16_le_round_trip(values: Seq<u16>)
    ensures
        u16_from_le_spec(u16_le_spec(values)) == values,
{
    let bytes = u16_le_spec(values);
    assert forall|i: int| 0 <= i < values.len() implies u16_from_le_spec(bytes)[i] == values[i] by {
        lemma_split_join(values[i]);
        assert(bytes[2 * i] == (values[i] & 0xFF) as u8);
        assert(bytes[2 * i + 1] == (values[i] >> 8) as u8);
    }
    assert(u16_from_le_spec(bytes) =~= values);
}

/// A Start marker at index `i`: the three symbols of a flagged `SOT`, in
/// either clock phase.
pub open spec fn start_at(buf: Seq<u8>, i: int) -> bool {
    &&& 0 <= i
    &&& i + 3 <= buf.len()
    &&& (buf[i] == 0b0000 && buf[i + 1] == 0b1001 && buf[i + 2] == 0b0111) || (buf[i] == 0b1000
        && buf[i + 1] == 0b0001 && buf[i + 2] == 0b1111)
}

/// An End marker at index `i`: the three symbols of a flagged `EOT`, in
/// either clock phase.
pub open spec fn end_at(buf: Seq<u8>, i: int) -> bool {
    &&& 0 <= i
    &&& i + 3 <= buf.len()
    &&& (buf[i] == 0b0000 && buf[i + 1] == 0b1001 && buf[i + 2] == 0b0001) || (buf[i] == 0b1000
        && buf[i + 1] == 0b0001 && buf[i + 2] == 0b1001)
}

/// `start` is the first index with a Start marker, and `end` is the last
/// index at or after it, a whole number of triplets away, with an End
/// marker.
pub open spec fn frame_bounds(buf: Seq<u8>, start: int, end: int) -> bool {
    &&& start_at(buf, start)
    &&& forall|i: int| 0 <= i < start ==> !start_at(buf, i)
    &&& start <= end
    &&& (end - start) % 3 == 0
    &&& end_at(buf, end)
    &&& forall|i: int| end < i && (i - start) % 3 == 0 ==> !end_at(buf, i)
}

fn start_matches(buf: &Vec<u8>, i: usize) -> (r: bool)
    requires
        i + 3 <= buf.len(),
    ensures
        r == start_at(buf@, i as int),
{
    (buf[i] == 0b0000 && buf[i + 1] == 0b1001 && buf[i + 2] == 0b0111) || (buf[i] == 0b1000
        && buf[i + 1] == 0b0001 && buf[i + 2] == 0b1111)
}

fn end_matches(buf: &Vec<u8>, i: usize) -> (r: bool)
    requires
        i + 3 <= buf.len(),
    ensures
        r == end_at(buf@, i as int),
{
    (buf[i] == 0b0000 && buf[i + 1] == 0b1001 && buf[i + 2] == 0b0001) || (buf[i] == 0b1000
        && buf[i + 1] == 0b0001 && buf[i + 2] == 0b1001)
}

/// Looks for one complete frame in a buffer of received symbols: scans
/// forward for the first Start marker, and backward from the tail for the
/// last End marker that lies a whole number of triplets after it. A buffer
/// of fewer than 6 symbols holds no frame.
pub fn start_and_end(p0: &Vec<u8>) -> (r: Option<(usize, usize)>)
    ensures
        match r {
            Some((start, end)) => p0.len() >= 6 && frame_bounds(p0@, start as int, end as int),
            None => p0.len() < 6 || forall|s: int, e: int| !frame_bounds(p0@, s, e),
        },
{
    let n: usize = p0.len();
    if n < 6 {
        return None;
    }
    let mut start: usize = 0;
    while start < n - 2 && !start_matches(p0, start)
        invariant
            n == p0.len(),
            n >= 6,
            start <= n - 2,
            forall|i: int| 0 <= i < start ==> !start_at(p0@, i),
        decreases n - start,
    {
        start += 1;
    }
    if start >= n - 2 {
        return None;
    }
    let mut i: usize = n - 2;
    while i > start
        invariant
            n == p0.len(),
            start <= i <= n - 2,
            start_at(p0@, start as int),
            forall|j: int| 0 <= j < start ==> !start_at(p0@, j),
            forall|j: int| i <= j && (j - start) % 3 == 0 ==> !end_at(p0@, j),
        decreases i,
    {
        i -= 1;
        if (i - start) % 3 == 0 && end_matches(p0, i) {
            return Some((start, i));
        }
    }
    assert forall|s: int, e: int| !frame_bounds(p0@, s, e) by {
        if frame_bounds(p0@, s, e) {
            assert(s == start);
        }
    }
    None
}

/// A buffer has at most one pair of frame bounds.
pub proof fn lemma_frame_bounds_unique(buf: Seq<u8>, s1: int, e1: int, s2: int, e2: int)
    requires
        frame_bounds(buf, s1, e1),
        frame_bounds(buf, s2, e2),
    ensures
        s1 == s2,
        e1 == e2,
{
}

/// Symbols in front of a frame that hold no Start marker of their own, and
/// complete none with the first symbols of the buffer, move the frame's
/// bounds by their number and leave the frame as it is.
pub proof fn lemma_leading_noise(noise: Seq<u8>, buf: Seq<u8>, start: int, end: int)
    requires
        frame_bounds(buf, start, end),
        forall|i: int| 0 <= i < noise.len() ==> !start_at(noise + buf, i),
    ensures
        frame_bounds(noise + buf, noise.len() + start, noise.len() + end),
        (noise + buf).subrange(noise.len() + start, noise.len() + end + 3) == buf.subrange(
            start,
            end + 3,
        ),
{
    let n: int = noise.len() as int;
    let all = noise + buf;
    assert forall|i: int| n <= i implies (start_at(all, i) == start_at(buf, i - n) && end_at(
        all,
        i,
    ) == end_at(buf, i - n)) by {
        if i + 3 <= all.len() {
            assert(all[i] == buf[i - n]);
            assert(all[i + 1] == buf[i + 1 - n]);
            assert(all[i + 2] == buf[i + 2 - n]);
        }
    }
    assert forall|i: int| end + n < i && (i - (start + n)) % 3 == 0 implies !end_at(all, i) by {
        assert(end < i - n && ((i - n) - start) % 3 == 0);
    }
    assert(all.subrange(n + start, n + end + 3) =~= buf.subrange(start, end + 3));
}

/// The frame between the bounds that `start_and_end` found: the symbols from
/// `start` up to the last symbol of the End marker.
pub fn slice_data(received: Vec<u8>, start: usize, end: usize) -> (frame: Vec<u8>)
    requires
        start <= end,
        end + 3 <= received.len(),
    ensures
        frame@ == received@.subrange(start as int, end + 3),
{
    copy_range(&received, start, end + 3)
}

/// Expands a packed stream into the writes for a polled line. Each symbol
/// is written twice: the upper symbol of a byte first with its clock bit set,
/// the lower one first with its clock bit cleared.
pub fn ready_for_send(transmission_bins: Vec<u8>) -> (writes: Vec<u8>)
    ensures
        writes@ == wire_spec(transmission_bins@),
{
    let mut writes: Vec<u8> = Vec::new();
    let mut i: usize = 0;
    while i < transmission_bins.len()
        invariant
            i <= transmission_bins.len(),
            writes.len() == 4 * i,
            forall|k: int|
                0 <= k < 4 * i ==> writes[k] == #[trigger] wire_spec(transmission_bins@)[k],
        decreases transmission_bins.len() - i,
    {
        let byte: u8 = transmission_bins[i];
        let upper: u8 = byte >> 4;
        let lower: u8 = byte & 0x0F;
        writes.push(upper | 0b1000);
        writes.push(upper);
        writes.push(byte & 0b0111);
        writes.push(lower);
        i += 1;
    }
    assert(writes@ =~= wire_spec(transmission_bins@));
    writes
}

} // verus!
