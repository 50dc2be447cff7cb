//! Core of a networked entity/component replication engine.
//!
//! A server-authoritative world of entities and components is synchronized
//! to many clients over an unreliable datagram transport. The library holds
//! the verified logic: diff masks, sequence buffers, key allocation, the
//! wire codec, per-connection entity and message managers, the handshake
//! state machine and the server coordinator. Socket I/O stays outside.

pub mod bytes;
pub mod client;
pub mod client_entity_manager;
pub mod command_receiver;
pub mod connection;
pub mod diff_handler;
pub mod diff_mask;
pub mod entity_action;
pub mod entity_manager;
pub mod hmac;
pub mod key_generator;
pub mod keyed_vec;
pub mod laws;
pub mod message_manager;
pub mod packet;
pub mod packet_writer;
pub mod replica;
pub mod seq;
pub mod sequence_buffer;
pub mod server;
pub mod world;
pub mod world_record;
