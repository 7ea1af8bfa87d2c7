//! The whole pipeline over one transmission line: hexadecimal text to bytes,
//! bytes to packets, and the two queries asked of the decoded tree — the
//! version sum and the arithmetic value.

use vstd::prelude::*;

verus! {

use crate::hex;
use crate::hex::HexError;
use crate::packet;
use crate::packet::PacketModel;

/// Why a transmission could not be decoded or queried.
#[derive(Debug, Clone, Copy, PartialEq, Eq, Structural)]
pub enum TransmissionError {
    /// The hexadecimal text is malformed.
    Hex(HexError),
    /// A packet started but the stream ended inside it.
    Malformed,
    /// The stream holds no packet at all.
    Empty,
    /// A sum of versions does not fit in 64 bits.
    TooLarge,
}

/// The top-level packets denoted by a line of hexadecimal text, if it
/// decodes.
pub open spec fn spec_packets(s: Seq<char>) -> Option<Seq<PacketModel>> {
    match hex::spec_decode(s) {
        Err(e) => None,
        Ok(bytes) => packet::parse_stream(bytes, 0),
    }
}

/// The first top-level packet of the line, if there is one.
pub open spec fn spec_first_packet(s: Seq<char>) -> Option<PacketModel> {
    match spec_packets(s) {
        None => None,
        Some(models) => if models.len() > 0 {
            Some(models[0])
        } else {
            None
        },
    }
}

/// The sum of every version field in the transmission.
///
/// Fails exactly when the hexadecimal text is malformed, a packet is cut
/// short, or the sum does not fit in 64 bits.
pub fn version_sum_of_line(s: &str) -> (r: Result<u64, TransmissionError>)
    requires
        s@.len() <= usize::MAX / 4,
    ensures
        match hex::spec_decode(s@) {
            Err(e) => r == Err::<u64, TransmissionError>(TransmissionError::Hex(e)),
            Ok(bytes) => match packet::parse_stream(bytes, 0) {
                None => r == Err::<u64, TransmissionError>(TransmissionError::Malformed),
                Some(models) => if packet::version_sums(models) <= u64::MAX {
                    r matches Ok(v) && v as int == packet::version_sums(models)
                } else {
                    r == Err::<u64, TransmissionError>(TransmissionError::TooLarge)
                },
            },
        },
{
    let bytes = match hex::decode(s) {
        Err(e) => {
            return Err(TransmissionError::Hex(e));
        },
        Ok(b) => b,
    };
    let packets = match packet::decode(bytes.as_slice()) {
        None => {
            return Err(TransmissionError::Malformed);
        },
        Some(p) => p,
    };
    match packet::version_sum_list(&packets) {
        None => Err(TransmissionError::TooLarge),
        Some(v) => Ok(v),
    }
}

/// The arithmetic value of the first top-level packet of the transmission.
///
/// Defined when that packet, if it exists, is evaluable (see
/// `packet::evaluable`); fails exactly on malformed text and on an empty
/// stream.
pub fn value_of_line(s: &str) -> (r: Result<u64, TransmissionError>)
    requires
        s@.len() <= usize::MAX / 4,
        spec_first_packet(s@) matches Some(m) ==> packet::evaluable(m),
    ensures
        match hex::spec_decode(s@) {
            Err(e) => r == Err::<u64, TransmissionError>(TransmissionError::Hex(e)),
            Ok(bytes) => match packet::parse_stream(bytes, 0) {
                None => r == Err::<u64, TransmissionError>(TransmissionError::Malformed),
                Some(models) => if models.len() == 0 {
                    r == Err::<u64, TransmissionError>(TransmissionError::Empty)
                } else {
                    r matches Ok(v) && v as int == packet::eval_model(models[0])
                },
            },
        },
{
    let bytes = match hex::decode(s) {
        Err(e) => {
            return Err(TransmissionError::Hex(e));
        },
        Ok(b) => b,
    };
    let packets = match packet::decode(bytes.as_slice()) {
        None => {
            return Err(TransmissionError::Malformed);
        },
        Some(p) => p,
    };
    proof {
        packet::lemma_packets_model_len(packets@);
    }
    if packets.len() == 0 {
        return Err(TransmissionError::Empty);
    }
    proof {
        packet::lemma_packets_model_index(packets@, 0);
    }
    Ok(packets[0].eval())
}

} // verus!
