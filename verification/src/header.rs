//! The fixed-size packet header and its wire codec.
//!
//! Every datagram starts with a two-byte header: the packet's own sequence
//! number followed by the highest inbound sequence number the sender has
//! validated. The remaining bytes are the opaque payload; there is no length
//! field, no magic value and no checksum, so corruption is only ever detected
//! as "too short to contain a header".

use vstd::prelude::*;

use crate::sequence::SequenceNr;

verus! {

/// Number of bytes a serialized header occupies at the start of a datagram.
pub const HEADER_SIZE: usize = 2;

/// The fixed two-field wire header carried at the front of every datagram.
#[derive(Clone, Copy, Debug, PartialEq, Eq, Structural)]
pub struct PacketHeader {
    /// This packet's own sequence number.
    pub seq: SequenceNr,
    /// The highest inbound sequence number the sending side has validated.
    pub ack: SequenceNr,
}

/// A datagram too short to contain a full header.
#[derive(Clone, Copy, Debug, PartialEq, Eq, Structural)]
pub enum FramingError {
    Truncated,
}

impl PacketHeader {
    /// The serialized form of this header: `seq` then `ack`, no padding.
    pub open spec fn spec_bytes(self) -> Seq<u8> {
        seq![self.seq, self.ack]
    }

    /// Appends the serialized header to `buf`: `seq` then `ack`, in that
    /// fixed order, with no padding or separators.
    pub fn write_to(&self, buf: &mut Vec<u8>)
        ensures
            final(buf)@ == old(buf)@ + self.spec_bytes(),
    {
        buf.push(self.seq);
        buf.push(self.ack);
        proof {
            assert(final(buf)@ =~= old(buf)@ + self.spec_bytes());
        }
    }

    /// Reads a header back from the start of `bytes`; fails with a framing
    /// error when fewer bytes remain than the fixed header size.
    pub fn read_from(bytes: &[u8]) -> (r: Result<PacketHeader, FramingError>)
        ensures
            r == spec_read(bytes@),
    {
        if bytes.len() < HEADER_SIZE {
            Err(FramingError::Truncated)
        } else {
            Ok(PacketHeader { seq: bytes[0], ack: bytes[1] })
        }
    }
}

/// The header encoded at the start of `d`, or a framing error when `d` is
/// too short to hold one.
pub open spec fn spec_read(d: Seq<u8>) -> Result<PacketHeader, FramingError> {
    if d.len() >= HEADER_SIZE {
        Ok(PacketHeader { seq: d[0], ack: d[1] })
    } else {
        Err(FramingError::Truncated)
    }
}

/// The payload of datagram `d`: everything after the header bytes.
pub open spec fn spec_payload_of(d: Seq<u8>) -> Seq<u8> {
    d.skip(HEADER_SIZE as int)
}

/// Serializing a header and reading it back reproduces the identical
/// `(seq, ack)` pair.
pub proof fn lemma_header_round_trip(h: PacketHeader)
    ensures
        spec_read(h.spec_bytes()) == Ok::<PacketHeader, FramingError>(h),
{
}

/// A serialized header followed by any payload parses back to that same
/// header, and the bytes after the header are exactly that payload.
pub proof fn lemma_datagram_round_trip(h: PacketHeader, payload: Seq<u8>)
    ensures
        spec_read(h.spec_bytes() + payload) == Ok::<PacketHeader, FramingError>(h),
        spec_payload_of(h.spec_bytes() + payload) == payload,
{
    assert(spec_payload_of(h.spec_bytes() + payload) =~= payload);
}

} // verus!
