//! The symbol codec. A symbol is a four-bit value: bit 3 is a clock that
//! alternates from one symbol to the next, bits 0 to 2 carry payload. Three
//! symbols carry one byte and its control flag:
//!
//! ```text
//! C d7 d6 d5 | C d4 d3 d2 | C d1 d0 F
//! ```

use crate::utilities::nibbles_to_bytes;
use vstd::prelude::*;

verus! {

/// The clock bit of a symbol.
pub open spec fn clock_bit(symbol: u8) -> u8 {
    (symbol >> 3) & 1
}

/// The three symbols that carry `byte` and `is_control`, the first of them
/// with clock bit `clock`.
pub open spec fn encode_spec(byte: u8, is_control: bool, clock: u8) -> Seq<u8> {
    let flag: u8 = if is_control { 1u8 } else { 0u8 };
    seq![
        (clock << 3) | (byte >> 5),
        ((clock ^ 1) << 3) | ((byte >> 2) & 0b111),
        (clock << 3) | ((byte << 1) & 0b110) | flag,
    ]
}

/// The byte and control flag that three symbols carry. Clock bits are not
/// read.
pub open spec fn decode_spec(s0: u8, s1: u8, s2: u8) -> (u8, bool) {
    (((s0 & 0b111) << 5) | ((s1 & 0b111) << 2) | ((s2 & 0b110) >> 1), s2 & 1 == 1)
}

/// Encodes one byte and its control flag as three symbols whose clock bits
/// are `clock`, its complement, and `clock` again; also returns the clock
/// for the symbol that follows.
pub fn encode_byte(byte: u8, is_control: bool, clock: u8) -> (r: ([u8; 3], u8))
    requires
        clock <= 1,
    ensures
        r.0@ == encode_spec(byte, is_control, clock),
        r.1 == 1 - clock,
        clock_bit(r.0[0]) == clock,
        clock_bit(r.0[1]) == 1 - clock,
        clock_bit(r.0[2]) == clock,
        r.0[0] < 16 && r.0[1] < 16 && r.0[2] < 16,
{
    let flag: u8 = if is_control { 1 } else { 0 };
    let next: u8 = clock ^ 1;
    let s0: u8 = (clock << 3) | (byte >> 5);
    let s1: u8 = (next << 3) | ((byte >> 2) & 0b111);
    let s2: u8 = (clock << 3) | ((byte << 1) & 0b110) | flag;
    proof {
        lemma_symbol_shape(byte, is_control, clock);
        assert(clock ^ 1 == 1 - clock) by (bit_vector)
            requires
                clock <= 1,
        ;
    }
    let symbols: [u8; 3] = [s0, s1, s2];
    assert(symbols@ =~= encode_spec(byte, is_control, clock));
    (symbols, next)
}

/// Decodes three symbols into a byte and its control flag, whatever their
/// clock bits are.
pub fn decode_triplet(s0: u8, s1: u8, s2: u8) -> (r: (u8, bool))
    ensures
        r == decode_spec(s0, s1, s2),
{
    (((s0 & 0b111) << 5) | ((s1 & 0b111) << 2) | ((s2 & 0b110) >> 1), s2 & 1 == 1)
}

/// The symbols of an encoded byte are four bits wide and their clock bits
/// alternate, starting with `clock`.
pub proof fn lemma_symbol_shape(byte: u8, is_control: bool, clock: u8)
    requires
        clock <= 1,
    ensures
        ({
            let s = encode_spec(byte, is_control, clock);
            &&& s.len() == 3
            &&& s[0] < 16 && s[1] < 16 && s[2] < 16
            &&& clock_bit(s[0]) == clock
            &&& clock_bit(s[1]) == 1 - clock
            &&& clock_bit(s[2]) == clock
        }),
{
    let flag: u8 = if is_control { 1u8 } else { 0u8 };
    assert({
        let s0 = (clock << 3) | (byte >> 5);
        let s1 = ((clock ^ 1) << 3) | ((byte >> 2) & 0b111);
        let s2 = (clock << 3) | ((byte << 1) & 0b110) | flag;
        &&& s0 < 16 && s1 < 16 && s2 < 16
        &&& (s0 >> 3) & 1 == clock
        &&& (s1 >> 3) & 1 == 1 - clock
        &&& (s2 >> 3) & 1 == clock
    }) by (bit_vector)
        requires
            clock <= 1,
            flag <= 1,
    ;
}

/// Decoding inverts encoding, in either clock phase.
pub proof fn lemma_codec_round_trip(byte: u8, is_control: bool, clock: u8)
    requires
        clock <= 1,
    ensures
        ({
            let s = encode_spec(byte, is_control, clock);
            decode_spec(s[0], s[1], s[2]) == (byte, is_control)
        }),
{
    let flag: u8 = if is_control { 1u8 } else { 0u8 };
    assert({
        let s0 = (clock << 3) | (byte >> 5);
        let s1 = ((clock ^ 1) << 3) | ((byte >> 2) & 0b111);
        let s2 = (clock << 3) | ((byte << 1) & 0b110) | flag;
        &&& ((s0 & 0b111) << 5) | ((s1 & 0b111) << 2) | ((s2 & 0b110) >> 1) == byte
        &&& s2 & 1 == flag
    }) by (bit_vector)
        requires
            clock <= 1,
            flag <= 1,
    ;
}

/// Decoding reads payload bits only: flipping any clock bit changes nothing.
pub proof fn lemma_decode_ignores_clock(s0: u8, s1: u8, s2: u8)
    ensures
        decode_spec(s0 ^ 8, s1, s2) == decode_spec(s0, s1, s2),
        decode_spec(s0, s1 ^ 8, s2) == decode_spec(s0, s1, s2),
        decode_spec(s0, s1, s2 ^ 8) == decode_spec(s0, s1, s2),
{
    assert((s0 ^ 8) & 0b111 == s0 & 0b111) by (bit_vector);
    assert((s1 ^ 8) & 0b111 == s1 & 0b111) by (bit_vector);
    assert((s2 ^ 8) & 0b110 == s2 & 0b110) by (bit_vector);
    assert((s2 ^ 8) & 1 == s2 & 1) by (bit_vector);
}

/// Symbol `k` of the stream that carries `items`: item `k / 3`, position
/// `k % 3`, in a stream whose first clock bit is 0.
pub open spec fn stream_symbol(items: Seq<(u8, bool)>, k: int) -> u8 {
    encode_spec(items[k / 3].0, items[k / 3].1, ((k / 3) % 2) as u8)[k % 3]
}

/// The symbol stream that carries `items`: three symbols for each, clock
/// bits alternating from 0.
pub open spec fn encode_stream_spec(items: Seq<(u8, bool)>) -> Seq<u8> {
    Seq::new(3 * items.len(), |k: int| stream_symbol(items, k))
}

/// Symbols packed two to a byte, the earlier one in the upper half; an odd
/// last symbol is followed by a zero half.
pub open spec fn pack_spec(symbols: Seq<u8>) -> Seq<u8> {
    Seq::new(
        (symbols.len() + 1) / 2,
        |i: int|
            if 2 * i + 1 < symbols.len() {
                (symbols[2 * i] << 4) | symbols[2 * i + 1]
            } else {
                symbols[2 * i] << 4
            },
    )
}

/// Half `k` of a packed stream; zero past its end.
pub open spec fn nibble_at(packed: Seq<u8>, k: int) -> u8 {
    if 0 <= k < 2 * packed.len() {
        if k % 2 == 0 {
            packed[k / 2] >> 4
        } else {
            packed[k / 2] & 0x0F
        }
    } else {
        0
    }
}

/// The number of items that `decode_stream_spec` reads from `len` packed
/// bytes: two for every three bytes, the last group filled up with zeros.
pub open spec fn decoded_len(len: nat) -> nat {
    2 * ((len + 2) / 3)
}

/// The items that a packed stream carries: item `m` from halves `3m`,
/// `3m + 1` and `3m + 2`.
pub open spec fn decode_stream_spec(packed: Seq<u8>) -> Seq<(u8, bool)> {
    Seq::new(
        decoded_len(packed.len()),
        |m: int|
            decode_spec(
                nibble_at(packed, 3 * m),
                nibble_at(packed, 3 * m + 1),
                nibble_at(packed, 3 * m + 2),
            ),
    )
}

/// What `nibbles_to_bytes` returns for three packed bytes.
pub open spec fn group_spec(b0: u8, b1: u8, b2: u8) -> Seq<(u8, bool)> {
    seq![
        decode_spec(b0 >> 4, b0 & 0x0F, b1 >> 4),
        decode_spec(b1 & 0x0F, b2 >> 4, b2 & 0x0F),
    ]
}

/// The two writes that put one symbol on a polled line: the symbol with
/// its clock bit inverted, so that the data lines settle under the old
/// clock level, and the symbol itself, whose clock edge tells the receiver
/// to sample.
pub open spec fn strobe_spec(symbol: u8) -> Seq<u8> {
    seq![symbol ^ 0b1000, symbol]
}

/// The writes for a packed stream, four for each byte: the upper symbol
/// with its clock bit set, the upper symbol, the lower symbol with its
/// clock bit cleared, the lower symbol.
pub open spec fn wire_spec(packed: Seq<u8>) -> Seq<u8> {
    Seq::new(
        4 * packed.len(),
        |k: int|
            {
                let byte = packed[k / 4];
                if k % 4 == 0 {
                    (byte >> 4) | 0b1000
                } else if k % 4 == 1 {
                    byte >> 4
                } else if k % 4 == 2 {
                    byte & 0b0111
                } else {
                    byte & 0x0F
                }
            },
    )
}

/// Encodes a sequence of bytes with their control flags as a symbol stream
/// whose clock starts at 0.
pub fn encode_stream(items: &Vec<(u8, bool)>) -> (symbols: Vec<u8>)
    ensures
        symbols@ == encode_stream_spec(items@),
{
    let mut symbols: Vec<u8> = Vec::new();
    let mut clock: u8 = 0;
    let mut i: usize = 0;
    while i < items.len()
        invariant
            i <= items.len(),
            clock as int == (i as int) % 2,
            symbols.len() == 3 * i,
            forall|k: int| 0 <= k < 3 * i ==> symbols[k] == #[trigger] stream_symbol(items@, k),
        decreases items.len() - i,
    {
        let item: (u8, bool) = items[i];
        let (triplet, next) = encode_byte(item.0, item.1, clock);
        symbols.push(triplet[0]);
        symbols.push(triplet[1]);
        symbols.push(triplet[2]);
        clock = next;
        i += 1;
    }
    assert(symbols@ =~= encode_stream_spec(items@));
    symbols
}

/// Packs symbols two to a byte.
pub fn pack_nibbles(symbols: &Vec<u8>) -> (packed: Vec<u8>)
    ensures
        packed@ == pack_spec(symbols@),
{
    let mut packed: Vec<u8> = Vec::new();
    let n: usize = symbols.len();
    let pairs: usize = n / 2 + n % 2;
    let mut j: usize = 0;
    while j < pairs
        invariant
            n == symbols.len(),
            pairs == (n + 1) / 2,
            j <= pairs,
            packed.len() == j,
            forall|i: int| 0 <= i < j ==> packed[i] == #[trigger] pack_spec(symbols@)[i],
        decreases pairs - j,
    {
        let base: usize = 2 * j;
        let upper: u8 = symbols[base] << 4;
        if n - base > 1 {
            packed.push(upper | symbols[base + 1]);
        } else {
            packed.push(upper);
        }
        j += 1;
    }
    assert(packed@ =~= pack_spec(symbols@));
    packed
}

/// Decodes a packed stream, three bytes at a time; a last group of one or
/// two bytes is filled up with zeros.
pub fn decode_stream(packed: &Vec<u8>) -> (items: Vec<(u8, bool)>)
    ensures
        items@ == decode_stream_spec(packed@),
{
    let n: usize = packed.len();
    let groups: usize = n / 3 + if n % 3 != 0 { 1 } else { 0 };
    let mut items: Vec<(u8, bool)> = Vec::new();
    let mut g: usize = 0;
    while g < groups
        invariant
            n == packed.len(),
            groups == (n + 2) / 3,
            g <= groups,
            items.len() == 2 * g,
            forall|m: int| 0 <= m < 2 * g ==> items[m] == #[trigger] decode_stream_spec(packed@)[m],
        decreases groups - g,
    {
        let base: usize = 3 * g;
        let b0: u8 = packed[base];
        let b1: u8 = if n - base > 1 { packed[base + 1] } else { 0 };
        let b2: u8 = if n - base > 2 { packed[base + 2] } else { 0 };
        let pair: Vec<(u8, bool)> = nibbles_to_bytes([b0, b1, b2]);
        proof {
            assert(0u8 >> 4 == 0 && 0u8 & 0x0F == 0) by (bit_vector);
            let m: int = 2 * g;
            assert(nibble_at(packed@, 3 * m) == b0 >> 4);
            assert(nibble_at(packed@, 3 * m + 1) == b0 & 0x0F);
            assert(nibble_at(packed@, 3 * m + 2) == b1 >> 4);
            assert(nibble_at(packed@, 3 * (m + 1)) == b1 & 0x0F);
            assert(nibble_at(packed@, 3 * (m + 1) + 1) == b2 >> 4);
            assert(nibble_at(packed@, 3 * (m + 1) + 2) == b2 & 0x0F);
        }
        items.push(pair[0]);
        items.push(pair[1]);
        g += 1;
    }
    assert(items@ =~= decode_stream_spec(packed@));
    items
}

/// The two writes for one symbol on a polled line.
pub fn strobe_expand(symbol: u8) -> (r: [u8; 2])
    ensures
        r@ == strobe_spec(symbol),
{
    let r: [u8; 2] = [symbol ^ 0b1000, symbol];
    assert(r@ =~= strobe_spec(symbol));
    r
}

/// Every symbol of an encoded stream is four bits wide and carries the
/// clock bit `k % 2`: the clock bits of neighbours differ.
pub proof fn lemma_stream_clock(items: Seq<(u8, bool)>, k: int)
    requires
        0 <= k < 3 * items.len(),
    ensures
        encode_stream_spec(items)[k] < 16,
        clock_bit(encode_stream_spec(items)[k]) == k % 2,
        k + 1 < 3 * items.len() ==> clock_bit(encode_stream_spec(items)[k + 1]) != clock_bit(
            encode_stream_spec(items)[k],
        ),
{
    lemma_stream_symbol_shape(items, k);
    if k + 1 < 3 * items.len() {
        lemma_stream_symbol_shape(items, k + 1);
    }
}

proof fn lemma_stream_symbol_shape(items: Seq<(u8, bool)>, k: int)
    requires
        0 <= k < 3 * items.len(),
    ensures
        encode_stream_spec(items)[k] == stream_symbol(items, k),
        stream_symbol(items, k) < 16,
        clock_bit(stream_symbol(items, k)) == k % 2,
{
    let j: int = k / 3;
    lemma_symbol_shape(items[j].0, items[j].1, (j % 2) as u8);
}

/// Packing keeps every symbol of four bits apart: half `k` of the packed
/// stream is symbol `k`, and zero past the last symbol.
pub proof fn lemma_pack_keeps_symbols(symbols: Seq<u8>, k: int)
    requires
        forall|i: int| 0 <= i < symbols.len() ==> symbols[i] < 16,
        0 <= k,
    ensures
        nibble_at(pack_spec(symbols), k) == if k < symbols.len() {
            symbols[k]
        } else {
            0u8
        },
{
    let packed = pack_spec(symbols);
    if k < 2 * packed.len() {
        let i: int = k / 2;
        let a: u8 = symbols[2 * i];
        if 2 * i + 1 < symbols.len() {
            let b: u8 = symbols[2 * i + 1];
            assert(((a << 4) | b) >> 4 == a && ((a << 4) | b) & 0x0F == b) by (bit_vector)
                requires
                    a < 16,
                    b < 16,
            ;
        } else {
            assert((a << 4) >> 4 == a && (a << 4) & 0x0F == 0) by (bit_vector)
                requires
                    a < 16,
            ;
        }
    }
}

/// Encoding a sequence of items, packing the symbols and decoding the packed
/// stream gives the items back, followed by one zero item without flag where
/// their number is odd.
#[verifier::spinoff_prover]
pub proof fn lemma_stream_round_trip(items: Seq<(u8, bool)>)
    ensures
        decode_stream_spec(pack_spec(encode_stream_spec(items))) == if items.len() % 2 == 0 {
            items
        } else {
            items.push((0u8, false))
        },
{
    let symbols = encode_stream_spec(items);
    let packed = pack_spec(symbols);
    let decoded = decode_stream_spec(packed);
    let expected = if items.len() % 2 == 0 {
        items
    } else {
        items.push((0u8, false))
    };
    let n: int = items.len() as int;
    assert forall|i: int| 0 <= i < symbols.len() implies symbols[i] < 16 by {
        lemma_stream_symbol_shape(items, i);
    }
    assert(decoded.len() == expected.len());
    assert forall|m: int| 0 <= m < decoded.len() implies decoded[m] == expected[m] by {
        lemma_pack_keeps_symbols(symbols, 3 * m);
        lemma_pack_keeps_symbols(symbols, 3 * m + 1);
        lemma_pack_keeps_symbols(symbols, 3 * m + 2);
        if m < n {
            lemma_codec_round_trip(items[m].0, items[m].1, (m % 2) as u8);
            lemma_stream_symbol_shape(items, 3 * m);
            lemma_stream_symbol_shape(items, 3 * m + 1);
            lemma_stream_symbol_shape(items, 3 * m + 2);
        } else {
            assert(decode_spec(0, 0, 0) == (0u8, false)) by {
                assert(((0u8 & 0b111) << 5) | ((0u8 & 0b111) << 2) | ((0u8 & 0b110) >> 1) == 0
                    && 0u8 & 1 == 0) by (bit_vector);
            }
        }
    }
    assert(decoded =~= expected);
}

/// Where the upper symbol of a byte has clock bit 0 and the lower one has
/// clock bit 1, as in every stream that `encode_stream` and `pack_nibbles`
/// produce, the four writes for the byte are the strobe pairs of its two
/// symbols.
pub proof fn lemma_wire_is_strobed(packed: Seq<u8>, i: int)
    requires
        0 <= i < packed.len(),
        clock_bit(packed[i] >> 4) == 0,
        clock_bit(packed[i] & 0x0F) == 1,
    ensures
        wire_spec(packed).subrange(4 * i, 4 * i + 4) == strobe_spec(packed[i] >> 4) + strobe_spec(
            packed[i] & 0x0F,
        ),
{
    let byte: u8 = packed[i];
    assert(((byte >> 4) >> 3) & 1 == 0 ==> (byte >> 4) | 0b1000 == (byte >> 4) ^ 0b1000)
        by (bit_vector);
    assert(((byte & 0x0F) >> 3) & 1 == 1 ==> byte & 0b0111 == (byte & 0x0F) ^ 0b1000)
        by (bit_vector);
    let w = wire_spec(packed);
    assert(w[4 * i] == (byte >> 4) | 0b1000);
    assert(w[4 * i + 1] == byte >> 4);
    assert(w[4 * i + 2] == byte & 0b0111);
    assert(w[4 * i + 3] == byte & 0x0F);
    assert(w.subrange(4 * i, 4 * i + 4) =~= strobe_spec(byte >> 4) + strobe_spec(byte & 0x0F));
}

/// What a polling receiver makes of one reading of the line: the lower
/// four bits are a new symbol where their clock bit differs from the clock
/// level `clock` (0 or 8) of the symbol taken last, and nothing new
/// otherwise.
pub open spec fn sample_spec(reading: u8, clock: u8) -> Option<u8> {
    if (reading & 0x0F) & 0b1000 != clock {
        Some(reading & 0x0F)
    } else {
        None
    }
}

/// The clock level that a receiver holds after a sequence of readings.
pub open spec fn clock_after(readings: Seq<u8>, clock: u8) -> u8
    decreases readings.len(),
{
    if readings.len() == 0 {
        clock
    } else {
        let before = clock_after(readings.drop_last(), clock);
        match sample_spec(readings.last(), before) {
            Some(symbol) => symbol & 0b1000,
            None => before,
        }
    }
}

/// The symbols that a receiver takes from a sequence of readings.
pub open spec fn sampled_spec(readings: Seq<u8>, clock: u8) -> Seq<u8>
    decreases readings.len(),
{
    if readings.len() == 0 {
        seq![]
    } else {
        let before = sampled_spec(readings.drop_last(), clock);
        match sample_spec(readings.last(), clock_after(readings.drop_last(), clock)) {
            Some(symbol) => before.push(symbol),
            None => before,
        }
    }
}

/// Takes one reading of the line. Returns the symbol where the reading
/// shows a clock edge, and remembers its clock level.
pub fn sample_symbol(reading: u8, clock: &mut u8) -> (r: Option<u8>)
    ensures
        r == sample_spec(reading, *old(clock)),
        *final(clock) == clock_after(seq![reading], *old(clock)),
{
    let symbol: u8 = reading & 0x0F;
    let level: u8 = symbol & 0b1000;
    proof {
        assert(seq![reading].drop_last() =~= Seq::<u8>::empty());
    }
    if level != *clock {
        *clock = level;
        Some(symbol)
    } else {
        None
    }
}

/// Takes a sequence of readings and returns the symbols among them.
pub fn sample_stream(readings: &Vec<u8>, clock: &mut u8) -> (symbols: Vec<u8>)
    ensures
        symbols@ == sampled_spec(readings@, *old(clock)),
        *final(clock) == clock_after(readings@, *old(clock)),
{
    let mut symbols: Vec<u8> = Vec::new();
    let mut i: usize = 0;
    let ghost start = *clock;
    while i < readings.len()
        invariant
            i <= readings.len(),
            symbols@ == sampled_spec(readings@.take(i as int), start),
            *clock == clock_after(readings@.take(i as int), start),
        decreases readings.len() - i,
    {
        proof {
            assert(readings@.take(i + 1).drop_last() =~= readings@.take(i as int));
        }
        let level: u8 = *clock;
        let symbol: u8 = readings[i] & 0x0F;
        if symbol & 0b1000 != level {
            *clock = symbol & 0b1000;
            symbols.push(symbol);
        }
        i += 1;
    }
    assert(readings@.take(i as int) =~= readings@);
    symbols
}

proof fn lemma_sample_pair(before: Seq<u8>, setup: u8, symbol: u8, clock: u8)
    requires
        symbol < 16,
        (setup & 0x0F) & 0b1000 == clock,
        symbol & 0b1000 != clock,
        clock_after(before, 8) == clock,
    ensures
        sampled_spec(before.push(setup).push(symbol), 8) == sampled_spec(before, 8).push(symbol),
        clock_after(before.push(setup).push(symbol), 8) == symbol & 0b1000,
{
    let one = before.push(setup);
    let two = one.push(symbol);
    assert(one.drop_last() =~= before);
    assert(two.drop_last() =~= one);
    assert(symbol & 0x0F == symbol) by (bit_vector)
        requires
            symbol < 16,
    ;
    assert(clock_after(one, 8) == clock);
    assert(sampled_spec(one, 8) == sampled_spec(before, 8));
}

proof fn lemma_sample_idle(before: Seq<u8>, reading: u8)
    requires
        (reading & 0x0F) & 0b1000 == clock_after(before, 8),
    ensures
        sampled_spec(before.push(reading), 8) == sampled_spec(before, 8),
        clock_after(before.push(reading), 8) == clock_after(before, 8),
{
    assert(before.push(reading).drop_last() =~= before);
}

proof fn lemma_sample_full_byte(before: Seq<u8>, byte: u8, upper: u8, lower: u8)
    requires
        byte == (upper << 4) | lower,
        upper < 16,
        lower < 16,
        clock_bit(upper) == 0,
        clock_bit(lower) == 1,
        clock_after(before, 8) == 8,
    ensures
        sampled_spec(
            before.push((byte >> 4) | 0b1000).push(byte >> 4).push(byte & 0b0111).push(
                byte & 0x0F,
            ),
            8,
        ) == sampled_spec(before, 8).push(upper).push(lower),
        clock_after(
            before.push((byte >> 4) | 0b1000).push(byte >> 4).push(byte & 0b0111).push(
                byte & 0x0F,
            ),
            8,
        ) == 8,
{
    assert(byte >> 4 == upper && byte & 0x0F == lower && (((byte >> 4) | 0b1000) & 0x0F) & 0b1000
        == 8 && upper & 0b1000 == 0 && ((byte & 0b0111) & 0x0F) & 0b1000 == 0 && lower & 0b1000
        == 8) by (bit_vector)
        requires
            byte == (upper << 4) | lower,
            upper < 16,
            lower < 16,
            (upper >> 3) & 1 == 0,
            (lower >> 3) & 1 == 1,
    ;
    lemma_sample_pair(before, (byte >> 4) | 0b1000, upper, 8);
    let half = before.push((byte >> 4) | 0b1000).push(byte >> 4);
    lemma_sample_pair(half, byte & 0b0111, lower, 0);
}

proof fn lemma_sample_last_byte(before: Seq<u8>, byte: u8, upper: u8)
    requires
        byte == upper << 4,
        upper < 16,
        clock_bit(upper) == 0,
        clock_after(before, 8) == 8,
    ensures
        sampled_spec(
            before.push((byte >> 4) | 0b1000).push(byte >> 4).push(byte & 0b0111).push(
                byte & 0x0F,
            ),
            8,
        ) == sampled_spec(before, 8).push(upper),
{
    assert(byte >> 4 == upper && byte & 0x0F == 0 && (((byte >> 4) | 0b1000) & 0x0F) & 0b1000
        == 8 && upper & 0b1000 == 0 && ((byte & 0b0111) & 0x0F) & 0b1000 == 0 && (0u8 & 0x0F)
        & 0b1000 == 0) by (bit_vector)
        requires
            byte == upper << 4,
            upper < 16,
            (upper >> 3) & 1 == 0,
    ;
    lemma_sample_pair(before, (byte >> 4) | 0b1000, upper, 8);
    let half = before.push((byte >> 4) | 0b1000).push(byte >> 4);
    lemma_sample_idle(half, byte & 0b0111);
    lemma_sample_idle(half.push(byte & 0b0111), byte & 0x0F);
}

proof fn lemma_wire_byte(packed: Seq<u8>, i: int)
    requires
        0 <= i < packed.len(),
    ensures
        wire_spec(packed).take(4 * i + 4) == wire_spec(packed).take(4 * i).push(
            (packed[i] >> 4) | 0b1000,
        ).push(packed[i] >> 4).push(packed[i] & 0b0111).push(packed[i] & 0x0F),
{
    let writes = wire_spec(packed);
    assert(writes[4 * i] == (packed[i] >> 4) | 0b1000);
    assert(writes[4 * i + 1] == packed[i] >> 4);
    assert(writes[4 * i + 2] == packed[i] & 0b0111);
    assert(writes[4 * i + 3] == packed[i] & 0x0F);
    assert(writes.take(4 * i + 4) =~= writes.take(4 * i).push((packed[i] >> 4) | 0b1000).push(
        packed[i] >> 4,
    ).push(packed[i] & 0b0111).push(packed[i] & 0x0F));
}

#[verifier::spinoff_prover]
proof fn lemma_sampling_prefix(items: Seq<(u8, bool)>, k: int)
    requires
        0 <= k,
        2 * k <= 3 * items.len(),
    ensures
        sampled_spec(wire_spec(pack_spec(encode_stream_spec(items))).take(4 * k), 8)
            == encode_stream_spec(items).take(2 * k),
        clock_after(wire_spec(pack_spec(encode_stream_spec(items))).take(4 * k), 8) == 8,
    decreases k,
{
    let symbols = encode_stream_spec(items);
    let packed = pack_spec(symbols);
    let writes = wire_spec(packed);
    if k == 0 {
        assert(writes.take(0) =~= Seq::<u8>::empty());
        assert(symbols.take(0) =~= Seq::<u8>::empty());
    } else {
        let i: int = k - 1;
        lemma_sampling_prefix(items, i);
        lemma_stream_clock(items, 2 * i);
        lemma_stream_clock(items, 2 * i + 1);
        lemma_wire_byte(packed, i);
        assert(packed[i] == (symbols[2 * i] << 4) | symbols[2 * i + 1]);
        lemma_sample_full_byte(writes.take(4 * i), packed[i], symbols[2 * i], symbols[2 * i + 1]);
        assert(symbols.take(2 * k) =~= symbols.take(2 * i).push(symbols[2 * i]).push(
            symbols[2 * i + 1],
        ));
    }
}

/// A polling receiver reads the stream back from the writes: sampling the
/// writes that `ready_for_send` makes for an encoded and packed stream, from
/// a clock level of 8, gives the symbols of the stream, each one once.
pub proof fn lemma_sampling_reads_stream(items: Seq<(u8, bool)>)
    ensures
        sampled_spec(wire_spec(pack_spec(encode_stream_spec(items))), 8) == encode_stream_spec(
            items,
        ),
{
    let symbols = encode_stream_spec(items);
    let packed = pack_spec(symbols);
    let writes = wire_spec(packed);
    let n: int = symbols.len() as int;
    let k: int = n / 2;
    lemma_sampling_prefix(items, k);
    if n % 2 == 0 {
        assert(writes.take(4 * k) =~= writes);
        assert(symbols.take(2 * k) =~= symbols);
    } else {
        lemma_stream_clock(items, 2 * k);
        lemma_wire_byte(packed, k);
        assert(packed[k] == symbols[2 * k] << 4);
        lemma_sample_last_byte(writes.take(4 * k), packed[k], symbols[2 * k]);
        assert(writes.take(4 * k + 4) =~= writes);
        assert(symbols.take(2 * k).push(symbols[2 * k]) =~= symbols);
    }
}

} // verus!
