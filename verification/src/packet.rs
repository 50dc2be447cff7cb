//! Packet types and the standard header.
//!
//! Every non-handshake datagram opens with the standard header:
//! packet type, outgoing sequence number, the newest remote sequence seen
//! and a 32-bit field acknowledging the ones before it, and the sender's
//! host tick.

use vstd::prelude::*;

use crate::bytes::{
    u16_be_bytes, u16_from_be, u32_be_bytes, u32_from_be, write_u16_be, write_u32_be, write_u8,
    PacketReader,
};

verus! {

#[derive(Clone, Copy, Debug, PartialEq, Eq, Structural)]
pub enum PacketType {
    ClientChallengeRequest,
    ServerChallengeResponse,
    ClientConnectRequest,
    ServerConnectResponse,
    Data,
    Heartbeat,
    Ping,
    Pong,
    Unknown,
}

impl PacketType {
    /// The wire id of each packet type.
    pub open spec fn spec_to_u8(self) -> u8 {
        match self {
            PacketType::ClientChallengeRequest => 0,
            PacketType::ServerChallengeResponse => 1,
            PacketType::ClientConnectRequest => 2,
            PacketType::ServerConnectResponse => 3,
            PacketType::Data => 4,
            PacketType::Heartbeat => 5,
            PacketType::Ping => 6,
            PacketType::Pong => 7,
            PacketType::Unknown => 8,
        }
    }

    pub open spec fn spec_from_u8(b: u8) -> PacketType {
        if b == 0 {
            PacketType::ClientChallengeRequest
        } else if b == 1 {
            PacketType::ServerChallengeResponse
        } else if b == 2 {
            PacketType::ClientConnectRequest
        } else if b == 3 {
            PacketType::ServerConnectResponse
        } else if b == 4 {
            PacketType::Data
        } else if b == 5 {
            PacketType::Heartbeat
        } else if b == 6 {
            PacketType::Ping
        } else if b == 7 {
            PacketType::Pong
        } else {
            PacketType::Unknown
        }
    }

    pub fn to_u8(self) -> (r: u8)
        ensures
            r == self.spec_to_u8(),
    {
        match self {
            PacketType::ClientChallengeRequest => 0,
            PacketType::ServerChallengeResponse => 1,
            PacketType::ClientConnectRequest => 2,
            PacketType::ServerConnectResponse => 3,
            PacketType::Data => 4,
            PacketType::Heartbeat => 5,
            PacketType::Ping => 6,
            PacketType::Pong => 7,
            PacketType::Unknown => 8,
        }
    }

    pub fn from_u8(b: u8) -> (r: PacketType)
        ensures
            r == PacketType::spec_from_u8(b),
    {
        if b == 0 {
            PacketType::ClientChallengeRequest
        } else if b == 1 {
            PacketType::ServerChallengeResponse
        } else if b == 2 {
            PacketType::ClientConnectRequest
        } else if b == 3 {
            PacketType::ServerConnectResponse
        } else if b == 4 {
            PacketType::Data
        } else if b == 5 {
            PacketType::Heartbeat
        } else if b == 6 {
            PacketType::Ping
        } else if b == 7 {
            PacketType::Pong
        } else {
            PacketType::Unknown
        }
    }

    /// Decoding an encoded type gives the type back.
    pub proof fn lemma_round_trip(self)
        ensures
            PacketType::spec_from_u8(self.spec_to_u8()) == self,
    {
    }
}

/// The eleven-byte header on every non-handshake packet.
#[derive(Clone, Copy, Debug, PartialEq, Eq, Structural)]
pub struct StandardHeader {
    pub packet_type: PacketType,
    pub sequence: u16,
    pub ack: u16,
    pub ack_bitfield: u32,
    pub host_tick: u16,
}

impl StandardHeader {
    /// The exact wire bytes of a header.
    pub open spec fn wire_bytes(self) -> Seq<u8> {
        seq![self.packet_type.spec_to_u8()] + u16_be_bytes(self.sequence) + u16_be_bytes(self.ack)
            + u32_be_bytes(self.ack_bitfield) + u16_be_bytes(self.host_tick)
    }

    pub fn new(
        packet_type: PacketType,
        sequence: u16,
        ack: u16,
        ack_bitfield: u32,
        host_tick: u16,
    ) -> (r: StandardHeader)
        ensures
            r == (StandardHeader { packet_type, sequence, ack, ack_bitfield, host_tick }),
    {
        StandardHeader { packet_type, sequence, ack, ack_bitfield, host_tick }
    }

    /// Serialize the header.
    pub fn write(&self, out: &mut Vec<u8>)
        ensures
            final(out)@ == old(out)@ + self.wire_bytes(),
            self.wire_bytes().len() == 11,
    {
        write_u8(out, self.packet_type.to_u8());
        write_u16_be(out, self.sequence);
        write_u16_be(out, self.ack);
        write_u32_be(out, self.ack_bitfield);
        write_u16_be(out, self.host_tick);
        proof {
            assert(out@ =~= old(out)@ + self.wire_bytes());
        }
    }

    /// Deserialize a header; `None` on a short buffer. An unknown type
    /// byte decodes to `Unknown` and the connection drops the packet.
    pub fn read(reader: &mut PacketReader) -> (r: Option<StandardHeader>)
        requires
            old(reader).wf(),
        ensures
            final(reader).wf(),
            old(reader).remaining().len() >= 11 ==> (r matches Some(h) && ({
                let b = old(reader).remaining();
                &&& h.packet_type == PacketType::spec_from_u8(b[0])
                &&& h.sequence == u16_from_be(b[1], b[2])
                &&& h.ack == u16_from_be(b[3], b[4])
                &&& h.ack_bitfield == u32_from_be(b[5], b[6], b[7], b[8])
                &&& h.host_tick == u16_from_be(b[9], b[10])
                &&& final(reader).remaining() == b.skip(11)
            })),
            old(reader).remaining().len() < 11 ==> r.is_none(),
    {
        let b0 = match reader.read_u8() {
            Some(b) => b,
            None => {
                return None;
            },
        };
        let sequence = match reader.read_u16_be() {
            Some(v) => v,
            None => {
                return None;
            },
        };
        let ack = match reader.read_u16_be() {
            Some(v) => v,
            None => {
                return None;
            },
        };
        let ack_bitfield = match reader.read_u32_be() {
            Some(v) => v,
            None => {
                return None;
            },
        };
        let host_tick = match reader.read_u16_be() {
            Some(v) => v,
            None => {
                return None;
            },
        };
        proof {
            if old(reader).remaining().len() >= 11 {
                assert(reader.remaining() =~= old(reader).remaining().skip(11));
            }
        }
        Some(
            StandardHeader {
                packet_type: PacketType::from_u8(b0),
                sequence,
                ack,
                ack_bitfield,
                host_tick,
            },
        )
    }

    /// Reading back a written header gives the header, when its type byte
    /// is a declared one.
    pub proof fn lemma_header_round_trip(self)
        ensures
            self.wire_bytes().len() == 11,
            PacketType::spec_from_u8(self.wire_bytes()[0]) == self.packet_type,
            u16_from_be(self.wire_bytes()[1], self.wire_bytes()[2]) == self.sequence,
            u16_from_be(self.wire_bytes()[3], self.wire_bytes()[4]) == self.ack,
            u32_from_be(
                self.wire_bytes()[5],
                self.wire_bytes()[6],
                self.wire_bytes()[7],
                self.wire_bytes()[8],
            ) == self.ack_bitfield,
            u16_from_be(self.wire_bytes()[9], self.wire_bytes()[10]) == self.host_tick,
    {
        crate::bytes::lemma_u16_be_round_trip(self.sequence);
        crate::bytes::lemma_u16_be_round_trip(self.ack);
        crate::bytes::lemma_u32_be_round_trip(self.ack_bitfield);
        crate::bytes::lemma_u16_be_round_trip(self.host_tick);
        self.packet_type.lemma_round_trip();
    }
}

} // verus!
