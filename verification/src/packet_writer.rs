//! Assembles one outgoing data packet under the MTU budget.
//!
//! Actions and messages are serialized into working buffers; an action
//! that would push the packet past the MTU is refused, and the caller
//! unpops it. The wire caps the per-packet action count at one byte.

use vstd::prelude::*;

use crate::bytes::{u16_be_bytes, write_u16_be, write_u8};

verus! {

/// The datagram budget in bytes.
pub const MTU_SIZE: usize = 508;

pub struct PacketWriter {
    pub entity_working_bytes: Vec<u8>,
    pub entity_action_count: u8,
    pub message_working_bytes: Vec<u8>,
    pub message_count: u8,
}

impl PacketWriter {
    pub open spec fn used(self) -> int {
        self.entity_working_bytes@.len() + self.message_working_bytes@.len() as int
    }

    pub fn new() -> (r: PacketWriter)
        ensures
            r.entity_working_bytes@ == Seq::<u8>::empty(),
            r.message_working_bytes@ == Seq::<u8>::empty(),
            r.entity_action_count == 0,
            r.message_count == 0,
    {
        PacketWriter {
            entity_working_bytes: Vec::new(),
            entity_action_count: 0,
            message_working_bytes: Vec::new(),
            message_count: 0,
        }
    }

    /// Bytes already committed to this packet.
    pub fn bytes_number(&self) -> (r: usize)
        requires
            self.used() <= MTU_SIZE as int,
        ensures
            r == self.used(),
    {
        self.entity_working_bytes.len() + self.message_working_bytes.len()
    }

    /// Whether anything was written.
    pub fn has_bytes(&self) -> (r: bool)
        ensures
            r == (self.entity_action_count != 0 || self.message_count != 0),
    {
        self.entity_action_count != 0 || self.message_count != 0
    }

    /// Serialize a message block header and body into the working buffer:
    /// the message's kind id and payload. The caller enforces the budget.
    pub fn write_message(&mut self, message: &crate::replica::Replica) -> (r: bool)
        requires
            old(self).used() <= MTU_SIZE as int,
        ensures
            r ==> final(self).message_working_bytes@ == old(self).message_working_bytes@
                + u16_be_bytes(message@.kind) + message@.properties && final(self).message_count
                == old(self).message_count + 1 && final(self).entity_working_bytes == old(
                self,
            ).entity_working_bytes && final(self).entity_action_count == old(
                self,
            ).entity_action_count,
            !r ==> *final(self) == *old(self),
            r == (old(self).used() + 2 + message@.properties.len() + 3 < MTU_SIZE as int
                && old(self).message_count < 255),
    {
        let payload_len = message.property_count();
        if payload_len >= MTU_SIZE || self.bytes_number() >= MTU_SIZE {
            proof {
                assert(old(self).used() + 2 + message@.properties.len() + 3 >= MTU_SIZE as int);
            }
            return false;
        }
        if self.bytes_number() + 2 + payload_len + 3 < MTU_SIZE && self.message_count < 255 {
            write_u16_be(&mut self.message_working_bytes, message.kind());
            message.write(&mut self.message_working_bytes);
            self.message_count = self.message_count + 1;
            proof {
                assert(self.message_working_bytes@ =~= old(self).message_working_bytes@
                    + u16_be_bytes(message@.kind) + message@.properties);
            }
            true
        } else {
            false
        }
    }

    /// Hand over the assembled payload: one count byte and the message
    /// block, then one count byte and the action block. The writer resets.
    pub fn get_packet_bytes(&mut self) -> (r: Vec<u8>)
        ensures
            r@ == seq![old(self).message_count] + old(self).message_working_bytes@ + seq![
                old(self).entity_action_count,
            ] + old(self).entity_working_bytes@,
            final(self).entity_working_bytes@ == Seq::<u8>::empty(),
            final(self).message_working_bytes@ == Seq::<u8>::empty(),
            final(self).entity_action_count == 0,
            final(self).message_count == 0,
    {
        let mut out: Vec<u8> = Vec::new();
        write_u8(&mut out, self.message_count);
        let mut msg: Vec<u8> = Vec::new();
        core::mem::swap(&mut msg, &mut self.message_working_bytes);
        out.append(&mut msg);
        write_u8(&mut out, self.entity_action_count);
        let mut ent: Vec<u8> = Vec::new();
        core::mem::swap(&mut ent, &mut self.entity_working_bytes);
        out.append(&mut ent);
        self.message_count = 0;
        self.entity_action_count = 0;
        proof {
            assert(out@ =~= seq![old(self).message_count] + old(self).message_working_bytes@
                + seq![old(self).entity_action_count] + old(self).entity_working_bytes@);
        }
        out
    }
}

} // verus!
