use netsync::bytes::PacketReader;
use netsync::client::Client;
use netsync::connection::{AckManager, ConnectionState, TickManager, Timer};
use netsync::entity_manager::EntityManager;
use netsync::packet::{PacketType, StandardHeader};
use netsync::packet_writer::PacketWriter;
use netsync::replica::{Manifest, Replica};
use netsync::server::Server;
use netsync::world::World;
use netsync::world_record::WorldRecord;

fn test_key() -> Vec<u8> {
    (0u8..32).collect()
}

#[test]
fn challenge_tag_is_a_real_digest() {
    let mut manifest = Manifest::new();
    manifest.register_kind(1, 2);
    let mut server = Server::new_with_key(manifest, test_key(), None, 500, 10_000);
    let ts: Vec<u8> = vec![0, 1, 2, 3, 4, 5, 6, 7];
    let reply = server.process_challenge_request(&ts);
    let tag = reply[10..42].to_vec();
    // the tag is a 32-byte digest, not the timestamp handed back
    assert_eq!(tag.len(), 32);
    assert_ne!(&tag[0..8], &ts[..]);
    // signing is deterministic in the key and message
    let reply2 = server.process_challenge_request(&ts);
    assert_eq!(reply[2..], reply2[2..]);
    // the genuine tag authorizes; any single-byte change rejects
    let mut auth_reader = PacketReader::new(vec![0, 1, 61, 62]);
    assert!(server.process_connect_request(ts.clone(), &tag, &mut auth_reader).is_some());
    // a tag signed for one timestamp rejects for another
    let other: Vec<u8> = vec![9, 9, 9, 9, 9, 9, 9, 9];
    let mut auth_reader2 = PacketReader::new(vec![0, 1, 61, 62]);
    assert!(server.process_connect_request(other, &tag, &mut auth_reader2).is_none());
    // a server with a different secret rejects the tag
    let mut manifest2 = Manifest::new();
    manifest2.register_kind(1, 2);
    let mut key2 = test_key();
    key2[31] ^= 1;
    let mut server2 = Server::new_with_key(manifest2, key2, None, 500, 10_000);
    let mut auth_reader3 = PacketReader::new(vec![0, 1, 61, 62]);
    assert!(server2.process_connect_request(ts, &tag, &mut auth_reader3).is_none());
}

#[test]
fn header_serializes_and_parses_back() {
    let header = StandardHeader::new(PacketType::Data, 7, 42, 0xA5A5_5A5A, 99);
    let mut out: Vec<u8> = Vec::new();
    header.write(&mut out);
    assert_eq!(out.len(), 11);
    assert_eq!(out[0], 4);
    let mut reader = PacketReader::new(out);
    let back = StandardHeader::read(&mut reader).expect("header should parse");
    assert_eq!(back, header);
}

#[test]
fn ack_manager_resolves_in_flight_packets() {
    let mut sender = AckManager::new();
    let p0 = sender.next_packet_index();
    let p1 = sender.next_packet_index();
    let p2 = sender.next_packet_index();
    assert_eq!((p0, p1, p2), (0, 1, 2));
    // the peer acked packet 2, and packet 1 via bit 0 of the field
    let (delivered, dropped) = sender.process_ack(2, 0b01);
    assert!(delivered.contains(&2));
    assert!(delivered.contains(&1));
    assert!(!delivered.contains(&0));
    assert!(dropped.is_empty());
    // an ack far ahead drops what fell out of the window
    let p3 = sender.next_packet_index();
    assert_eq!(p3, 3);
    let (delivered2, dropped2) = sender.process_ack(50, 0);
    assert!(delivered2.is_empty());
    assert!(dropped2.contains(&0));
    assert!(dropped2.contains(&3));
}

#[test]
fn ack_fields_report_received_packets() {
    let mut receiver = AckManager::new();
    receiver.mark_received(10);
    receiver.mark_received(9);
    receiver.mark_received(7);
    let (ack, field) = receiver.ack_fields();
    assert_eq!(ack, 10);
    // bit 0 stands for 9, bit 2 for 7
    assert_eq!(field & 0b111, 0b101);
}

#[test]
fn handshake_accepts_the_signed_timestamp() {
    let mut manifest = Manifest::new();
    manifest.register_kind(1, 2);
    let mut server = Server::new_with_key(manifest, test_key(), None, 500, 10_000);
    let ts: Vec<u8> = vec![1, 2, 3, 4, 5, 6, 7, 8];
    // server replies with tick, the echoed timestamp, and its tag
    let reply = server.process_challenge_request(&ts);
    assert_eq!(reply.len(), 2 + 8 + 32);
    assert_eq!(&reply[2..10], &ts[..]);
    // the client stores the tag and moves to the connect round
    let mut client_manifest = Manifest::new();
    client_manifest.register_kind(1, 2);
    let mut client = Client::new(client_manifest, ts.clone(), None, 100, 10_000);
    client.process_challenge_response(reply);
    assert_eq!(client.connection_state, ConnectionState::AwaitingConnectResponse);
    let (packet_type, connect_payload) = client.handshake_payload().expect("connect payload");
    assert_eq!(packet_type, PacketType::ClientConnectRequest);
    // server side: timestamp, tag, then the auth message
    let tag = connect_payload[8..40].to_vec();
    let mut auth_reader = PacketReader::new(vec![0, 1, 61, 62]);
    let user = server
        .process_connect_request(ts.clone(), &tag, &mut auth_reader)
        .expect("valid tag should authorize");
    let accept = server.accept_connection(user);
    assert!(accept.is_some());
    client.process_connect_response();
    assert_eq!(client.connection_state, ConnectionState::Connected);
}

#[test]
fn handshake_rejects_a_forged_tag() {
    let mut manifest = Manifest::new();
    manifest.register_kind(1, 2);
    let mut server = Server::new_with_key(manifest, test_key(), None, 500, 10_000);
    let ts: Vec<u8> = vec![1, 2, 3, 4, 5, 6, 7, 8];
    let reply = server.process_challenge_request(&ts);
    let mut tag = reply[10..42].to_vec();
    tag[5] ^= 0x40;
    let mut auth_reader = PacketReader::new(vec![0, 1, 61, 62]);
    assert!(server.process_connect_request(ts, &tag, &mut auth_reader).is_none());
}

#[test]
fn server_delivers_messages_end_to_end() {
    let mut manifest = Manifest::new();
    manifest.register_kind(1, 2);
    manifest.register_kind(5, 3);
    let mut server = Server::new_with_key(manifest, test_key(), None, 500, 10_000);
    let ts: Vec<u8> = vec![8, 7, 6, 5, 4, 3, 2, 1];
    let reply = server.process_challenge_request(&ts);
    let tag = reply[10..42].to_vec();
    let mut auth_reader = PacketReader::new(vec![0, 1, 61, 62]);
    let user = server
        .process_connect_request(ts, &tag, &mut auth_reader)
        .expect("authorized");
    let _ = server.accept_connection(user).expect("accepted");
    // queue a guaranteed message and assemble the outgoing packet
    let greeting = Replica::new(5, vec![10, 11, 12]);
    server.queue_message(user, &greeting, true);
    let packets = server.send_all_updates();
    assert_eq!(packets.len(), 1);
    assert_eq!(packets[0].0, user);
    // the client reads the data packet and surfaces the message
    let mut client_manifest = Manifest::new();
    client_manifest.register_kind(1, 2);
    client_manifest.register_kind(5, 3);
    let mut client = Client::new(
        client_manifest,
        vec![8, 7, 6, 5, 4, 3, 2, 1],
        None,
        100,
        10_000,
    );
    client.connection_state = ConnectionState::Connected;
    client.process_data(packets[0].1.clone());
    let events = client.receive();
    let mut found = false;
    for e in events {
        if let netsync::client::ClientEvent::Message { message } = e {
            assert!(message.equals(&greeting));
            found = true;
        }
    }
    assert!(found);
}

#[test]
fn packet_writer_refuses_what_passes_the_budget() {
    let mut writer = PacketWriter::new();
    let small = Replica::new(5, vec![1, 2, 3]);
    assert!(writer.write_message(&small));
    assert_eq!(writer.message_count, 1);
    // a payload larger than the budget is refused whole
    let huge = Replica::new(5, vec![0; 600]);
    assert!(!writer.write_message(&huge));
    assert_eq!(writer.message_count, 1);
    let bytes = writer.get_packet_bytes();
    // message count, kind, payload, then the empty action block
    assert_eq!(bytes, vec![1, 0, 5, 1, 2, 3, 0]);
}

#[test]
fn timers_and_ticks_advance_with_reported_time() {
    let mut timer = Timer::new(250);
    timer.register_elapsed(200);
    assert!(!timer.ringing());
    timer.register_elapsed(50);
    assert!(timer.ringing());
    timer.reset();
    assert!(!timer.ringing());
    let mut ticks = TickManager::new(Some(50));
    assert!(!ticks.register_elapsed(49));
    assert!(ticks.register_elapsed(1));
    assert_eq!(ticks.get_tick(), 1);
    assert!(ticks.register_elapsed(150));
    assert_eq!(ticks.get_tick(), 4);
    let mut tickless = TickManager::new(None);
    assert!(!tickless.register_elapsed(10_000));
    assert_eq!(tickless.get_tick(), 0);
}

#[test]
fn scope_changes_spawn_and_despawn_on_connections() {
    let mut manifest = Manifest::new();
    manifest.register_kind(1, 2);
    manifest.register_kind(7, 4);
    let mut server = Server::new_with_key(manifest, test_key(), None, 500, 10_000);
    let ts: Vec<u8> = vec![1, 1, 2, 2, 3, 3, 4, 4];
    let reply = server.process_challenge_request(&ts);
    let tag = reply[10..42].to_vec();
    let mut auth_reader = PacketReader::new(vec![0, 1, 61, 62]);
    let user = server
        .process_connect_request(ts, &tag, &mut auth_reader)
        .expect("authorized");
    let _ = server.accept_connection(user).expect("accepted");
    let entity = server.register_entity().expect("entity key");
    let _component = server
        .add_component_to_entity(entity, Replica::new(7, vec![1, 2, 3, 4]))
        .expect("component key");
    let room = server.create_room().expect("room key");
    server.room_add_user(room, user);
    server.room_add_entity(room, entity);
    // not in scope until the override says so
    server.update_entity_scopes();
    assert!(!server.user_scope_has_entity(user, entity));
    server.entity_set_scope(room, user, entity, true);
    server.update_entity_scopes();
    assert!(server.user_scope_has_entity(user, entity));
    // and back out of scope
    server.entity_set_scope(room, user, entity, false);
    server.update_entity_scopes();
    let c = server.connections.get(user).expect("connection");
    assert_eq!(
        c.entity_manager.component_records.get(10_000),
        None,
    );
}

#[test]
fn entity_action_fills_the_packet_to_the_byte() {
    let mut wr = WorldRecord::new();
    wr.spawn_entity(1);
    wr.add_component(1, 10, 7);
    let mut manifest = Manifest::new();
    manifest.register_kind(7, 2);
    let mut em = EntityManager::new();
    em.spawn_entity(&wr, &manifest, 1);
    let action = em.pop_outgoing_action(&wr, 1).expect("spawn pop");
    let mut world = World::new();
    world.insert_component(10, Replica::new(7, vec![0xAA, 0xBB]));
    // measure the action's wire size
    let mut probe = PacketWriter::new();
    assert!(em.write_entity_action(&world, &mut probe, &action));
    let action_len = probe.entity_working_bytes.len();
    // a packet filled to exactly the budget still takes the action
    // (the first action also pays the two block-count bytes)
    let mut full = PacketWriter::new();
    full.message_working_bytes = vec![0u8; 508 - 2 - action_len];
    full.message_count = 1;
    assert!(em.write_entity_action(&world, &mut full, &action));
    assert_eq!(full.bytes_number(), 508 - 2);
    // one byte more and the action is refused whole
    let mut over = PacketWriter::new();
    over.message_working_bytes = vec![0u8; 508 - 2 - action_len + 1];
    over.message_count = 1;
    assert!(!em.write_entity_action(&world, &mut over, &action));
    assert_eq!(over.entity_action_count, 0);
}

#[test]
fn write_entity_action_emits_the_wire_form() {
    let mut wr = WorldRecord::new();
    wr.spawn_entity(1);
    wr.add_component(1, 10, 7);
    let mut manifest = Manifest::new();
    manifest.register_kind(7, 2);
    let mut em = EntityManager::new();
    em.spawn_entity(&wr, &manifest, 1);
    let action = em.pop_outgoing_action(&wr, 1).expect("spawn pop");
    let mut world = World::new();
    world.insert_component(10, Replica::new(7, vec![0xAA, 0xBB]));
    let mut writer = PacketWriter::new();
    assert!(em.write_entity_action(&world, &mut writer, &action));
    // action type, local entity, component count, kind, local component,
    // then the payload bytes
    assert_eq!(
        writer.entity_working_bytes,
        vec![0, 0, 0, 1, 0, 7, 0, 0, 0xAA, 0xBB],
    );
    assert_eq!(writer.entity_action_count, 1);
}
