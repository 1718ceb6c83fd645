//! Forward error correction: the calls into the `reed_solomon` crate, a
//! block code over GF(2^8) whose blocks hold at most 255 bytes, parity
//! counted in.
//!
//! Nothing is proved here of the code itself. What the encoder and the
//! decoder return is named by two uninterpreted functions, and the rest of
//! the library is proved against those names.

use vstd::prelude::*;

verus! {

/// The longest block, data and parity together, that the code can hold.
pub const MAX_BLOCK: usize = 255;

/// The longest parity that the decoder is called with. While it repairs a
/// block it multiplies the syndrome polynomial, of `ecc_len + 1`
/// coefficients, with an error locator of up to `ecc_len / 2 + 1`; its
/// polynomials hold 256 coefficients, which the product of a longer parity
/// could exceed.
pub const MAX_PARITY: usize = 170;

/// The parity that `reed_solomon::Encoder::new(ecc_len).encode(data)` appends
/// to `data`.
pub uninterp spec fn rs_parity(data: Seq<u8>, ecc_len: int) -> Seq<u8>;

/// What `reed_solomon::Decoder::new(ecc_len).correct_err_count(block, None)`
/// returns: the repaired block with the number of symbols it changed, or
/// `None` where it gives the block up.
pub uninterp spec fn rs_corrected(block: Seq<u8>, ecc_len: int) -> Option<(Seq<u8>, int)>;

/// Calls `reed_solomon::Encoder::encode` with an encoder for `ecc_len` parity
/// bytes and returns the parity part of the block, `Buffer::ecc`.
///
/// Trusted: the parity is `ecc_len` bytes long (the generator polynomial has
/// `ecc_len + 1` coefficients and the block is `data` followed by the
/// remainder), and the block `data ‖ parity` is a codeword, for which the
/// decoder finds all syndromes zero and returns the block as it is with a
/// count of 0. The encoder indexes a buffer of 256 bytes, hence the bound.
#[verifier::external_body]
pub(crate) fn rs_encode(data: &Vec<u8>, ecc_len: usize) -> (parity: Vec<u8>)
    requires
        data.len() + ecc_len <= MAX_BLOCK,
    ensures
        parity@ == rs_parity(data@, ecc_len as int),
        parity.len() == ecc_len,
        rs_corrected(data@ + parity@, ecc_len as int) == Some((data@ + parity@, 0int)),
{
    reed_solomon::Encoder::new(ecc_len).encode(&data[..]).ecc().to_vec()
}

/// Calls `reed_solomon::Decoder::correct_err_count` with a decoder for
/// `ecc_len` parity bytes and no known erasures.
///
/// Trusted: the result is the one named `rs_corrected`, and a repaired block
/// is as long as the block that went in. The decoder subtracts `ecc_len` from
/// the block's length, asserts that the block is shorter than 256 bytes, and
/// needs the room that `MAX_PARITY` leaves: hence the bounds.
#[verifier::external_body]
pub(crate) fn rs_decode(block: &Vec<u8>, ecc_len: usize) -> (r: Option<(Vec<u8>, usize)>)
    requires
        ecc_len <= block.len() <= MAX_BLOCK,
        ecc_len <= MAX_PARITY,
    ensures
        match r {
            Some((fixed, count)) => rs_corrected(block@, ecc_len as int) == Some(
                (fixed@, count as int),
            ) && fixed.len() == block.len(),
            None => rs_corrected(block@, ecc_len as int) is None,
        },
{
    match reed_solomon::Decoder::new(ecc_len).correct_err_count(&block[..], None) {
        Ok((buffer, count)) => Some((buffer.to_vec(), count)),
        Err(_) => None,
    }
}

} // verus!
