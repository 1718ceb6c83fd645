//! A link layer for moving bytes over a four-bit, self-clocked, half-duplex
//! channel: symbol coding, frame synchronisation, packets protected by
//! Reed-Solomon parity, and selective retransmission.
//!
//! * [`symbols`]: three symbols for a byte and its control flag, the clock
//!   bit alternating; packing, strobing and sampling of symbol streams.
//! * [`controls`]: the framing vocabulary.
//! * [`utilities`]: chunking, 16-bit fields and the frame synchroniser.
//! * [`fec`]: the calls into the Reed-Solomon code.
//! * [`protocol`]: packets and transmissions, their byte form and its
//!   decoder.
//! * [`wire`]: the proof that decoding inverts encoding.
//! * [`arq`]: the retransmission controller.
//! * [`guarantees`]: what holds of a whole transfer.

pub mod arq;
pub mod controls;
pub mod fec;
pub mod guarantees;
pub mod protocol;
pub mod symbols;
pub mod utilities;
pub mod wire;
