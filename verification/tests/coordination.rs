use netsync::bytes::PacketReader;
use netsync::replica::{Manifest, Replica};
use netsync::seq::{sequence_greater_than, wrapping_diff};
use netsync::server::Server;

fn test_key() -> Vec<u8> {
    (100u8..132).collect()
}

fn connected_server() -> (Server, u16) {
    let mut manifest = Manifest::new();
    manifest.register_kind(1, 2);
    manifest.register_kind(7, 4);
    let mut server = Server::new_with_key(manifest, test_key(), None, 500, 10_000);
    let ts: Vec<u8> = vec![1, 2, 3, 4, 5, 6, 7, 8];
    let reply = server.process_challenge_request(&ts);
    let tag = reply[10..42].to_vec();
    let mut auth_reader = PacketReader::new(vec![0, 1, 61, 62]);
    let user = server
        .process_connect_request(ts, &tag, &mut auth_reader)
        .expect("authorized");
    let _ = server.accept_connection(user).expect("accepted");
    (server, user)
}

#[test]
fn wrapping_sequence_comparison() {
    assert_eq!(wrapping_diff(10, 15), 5);
    assert_eq!(wrapping_diff(15, 10), -5);
    // across the wrap point the nearer direction wins
    assert_eq!(wrapping_diff(65535, 2), 3);
    assert_eq!(wrapping_diff(2, 65535), -3);
    assert!(sequence_greater_than(1, 65500));
    assert!(!sequence_greater_than(65500, 1));
    assert!(!sequence_greater_than(7, 7));
}

#[test]
fn pawn_assignment_queues_ownership() {
    let (mut server, user) = connected_server();
    let entity = server.register_entity().expect("entity");
    let _ = server
        .add_component_to_entity(entity, Replica::new(7, vec![0, 0, 0, 0]))
        .expect("component");
    server.assign_pawn_entity(user, entity);
    assert!(server.user_scope_has_entity(user, entity));
    {
        let c = server.connections.get(user).expect("connection");
        assert!(c.entity_manager.has_entity_prediction(entity));
    }
    server.unassign_pawn_entity(user, entity);
    let c = server.connections.get(user).expect("connection");
    assert!(!c.entity_manager.has_entity_prediction(entity));
    // a pawn entity stays in scope without an override
    assert!(server.user_scope_has_entity(user, entity));
}

#[test]
fn removing_a_component_clears_the_stores() {
    let (mut server, user) = connected_server();
    let entity = server.register_entity().expect("entity");
    let component = server
        .add_component_to_entity(entity, Replica::new(7, vec![9, 8, 7, 6]))
        .expect("component");
    server.assign_pawn_entity(user, entity);
    let value = server.remove_component(component).expect("stored value");
    assert_eq!(value.properties, vec![9, 8, 7, 6]);
    assert!(server.get_component_by_key(component).is_none());
    // the entity can then be deregistered
    server.deregister_entity(entity);
    assert!(server.components_iter(entity).is_empty());
}

#[test]
fn rooms_track_membership() {
    let (mut server, user) = connected_server();
    let room = server.create_room().expect("room");
    assert_eq!(server.get_rooms_count(), 1);
    server.room_add_user(room, user);
    server.room_remove_user(room, user);
    server.delete_room(room);
    assert_eq!(server.get_rooms_count(), 0);
    assert_eq!(server.get_users_count(), 1);
}

#[test]
fn server_update_reaches_the_client() {
    let (mut server, user) = connected_server();
    let entity = server.register_entity().expect("entity");
    let component = server
        .add_component_to_entity(entity, Replica::new(7, vec![1, 2, 3, 4]))
        .expect("component");
    let room = server.create_room().expect("room");
    server.room_add_user(room, user);
    server.room_add_entity(room, entity);
    server.entity_set_scope(room, user, entity, true);
    // the first broadcast carries the spawn action
    let first = server.send_all_updates();
    assert_eq!(first.len(), 1);
    let mut client_manifest = Manifest::new();
    client_manifest.register_kind(1, 2);
    client_manifest.register_kind(7, 4);
    let mut client = netsync::client::Client::new(
        client_manifest,
        vec![1, 2, 3, 4, 5, 6, 7, 8],
        None,
        100,
        10_000,
    );
    client.connection_state = netsync::connection::ConnectionState::Connected;
    client.process_data(first[0].1.clone());
    // the client acks by sending a packet of its own
    client.queue_message(&Replica::new(1, vec![0, 0]), false);
    let ack_packet = client.write_outgoing_packet().expect("ack packet");
    let _ = server.process_packet(user, ack_packet);
    // the spawn is acked; a mutation now rides as an update action
    server.notify_component_mutation(component, 2);
    let second = server.send_all_updates();
    assert_eq!(second.len(), 1);
    // give the client a replica under the update's wire-local key
    {
        let block = vec![1u8, 0, 0, 7, 0, 0, 4, 9, 9, 9, 9];
        let mut reader = PacketReader::new(block);
        assert!(client.entity_manager.process_data(
            &client.manifest,
            &mut client.command_receiver,
            0,
            &mut reader,
        ));
    }
    client.process_data(second[0].1.clone());
    let updated = client.get_entity(0).expect("updated entity");
    // only the mutated property changed, to the authoritative value
    assert_eq!(updated.properties, vec![9, 9, 3, 9]);
}

#[test]
fn late_component_reaches_a_tracking_connection() {
    let (mut server, user) = connected_server();
    let entity = server.register_entity().expect("entity");
    let first = server
        .add_component_to_entity(entity, Replica::new(7, vec![1, 1, 1, 1]))
        .expect("first component");
    let room = server.create_room().expect("room");
    server.room_add_user(room, user);
    server.room_add_entity(room, entity);
    server.entity_set_scope(room, user, entity, true);
    server.update_entity_scopes();
    assert!(server.user_scope_has_entity(user, entity));
    // a component added after the entity entered scope propagates
    let second = server
        .add_component_to_entity(entity, Replica::new(7, vec![2, 2, 2, 2]))
        .expect("second component");
    assert_ne!(first, second);
    let c = server.connections.get(user).expect("connection");
    assert!(c.entity_manager.component_records.get(second).is_some());
}

#[test]
fn duplicate_connect_requests_are_answered_again() {
    let (mut server, user) = connected_server();
    // the stored timestamp matches: the accept reply is framed again
    let ts: Vec<u8> = vec![1, 2, 3, 4, 5, 6, 7, 8];
    let reply = server.resend_connect_response(user, &ts);
    assert!(reply.is_some());
    assert!(reply.unwrap().len() >= 11);
    // a different timestamp means a new process owns the address: the
    // stale connection is dropped with a disconnection event
    let other: Vec<u8> = vec![9, 9, 9, 9, 9, 9, 9, 9];
    let room = server.create_room().expect("room");
    server.room_add_user(room, user);
    assert!(server.resend_connect_response(user, &other).is_none());
    assert!(server.connections.get(user).is_none());
    // the dropped user's room memberships go with it
    assert!(!server.get_room(room).unwrap().users.contains(user));
    let events = server.receive(0);
    let mut disconnected = false;
    for e in events {
        if let netsync::server::ServerEvent::Disconnection { user: u } = e {
            assert_eq!(u, user);
            disconnected = true;
        }
    }
    assert!(disconnected);
}

#[test]
fn timed_out_connection_disconnects() {
    let (mut server, user) = connected_server();
    let room = server.create_room().expect("room");
    server.room_add_user(room, user);
    server.register_elapsed(20_000);
    // the dead user leaves every room with its connection
    assert!(!server.get_room(room).unwrap().users.contains(user));
    let events = server.receive(100);
    let mut disconnected = false;
    for e in events {
        if let netsync::server::ServerEvent::Disconnection { user: u } = e {
            assert_eq!(u, user);
            disconnected = true;
        }
    }
    assert!(disconnected);
    assert!(server.connections.get(user).is_none());
}

#[test]
fn a_dropped_users_key_is_recycled() {
    let (mut server, user) = connected_server();
    let room = server.create_room().expect("room");
    server.room_add_user(room, user);
    server.register_elapsed(20_000);
    assert_eq!(server.get_users_count(), 0);
    // the key returns to the generator: the next user receives it again
    let ts: Vec<u8> = vec![9, 8, 7, 6, 5, 4, 3, 2];
    let reply = server.process_challenge_request(&ts);
    let tag = reply[10..42].to_vec();
    let mut auth_reader = PacketReader::new(vec![0, 1, 61, 62]);
    let user2 = server
        .process_connect_request(ts, &tag, &mut auth_reader)
        .expect("authorized");
    assert_eq!(user2, user);
    // and it inherits none of the old key's room memberships
    assert!(!server.get_room(room).unwrap().users.contains(user2));
}

#[test]
fn a_rejected_users_key_is_recycled() {
    let mut manifest = Manifest::new();
    manifest.register_kind(1, 2);
    let mut server = Server::new_with_key(manifest, test_key(), None, 500, 10_000);
    let ts: Vec<u8> = vec![1, 2, 3, 4, 5, 6, 7, 8];
    let reply = server.process_challenge_request(&ts);
    let tag = reply[10..42].to_vec();
    let mut auth_reader = PacketReader::new(vec![0, 1, 61, 62]);
    let user = server
        .process_connect_request(ts, &tag, &mut auth_reader)
        .expect("authorized");
    server.reject_connection(user);
    assert_eq!(server.get_users_count(), 0);
    // an authorization round later the same key serves the next user
    let ts2: Vec<u8> = vec![2, 2, 2, 2, 2, 2, 2, 2];
    let reply2 = server.process_challenge_request(&ts2);
    let tag2 = reply2[10..42].to_vec();
    let mut auth_reader2 = PacketReader::new(vec![0, 1, 61, 62]);
    let user2 = server
        .process_connect_request(ts2, &tag2, &mut auth_reader2)
        .expect("authorized");
    assert_eq!(user2, user);
}

#[test]
fn client_data_packet_has_the_exact_wire_form() {
    let mut client_manifest = Manifest::new();
    client_manifest.register_kind(1, 2);
    let mut client = netsync::client::Client::new(
        client_manifest,
        vec![1, 2, 3, 4, 5, 6, 7, 8],
        None,
        100,
        10_000,
    );
    client.connection_state = netsync::connection::ConnectionState::Connected;
    client.queue_message(&Replica::new(1, vec![7, 8]), false);
    let packet = client.write_outgoing_packet().expect("data packet");
    // header: type, sequence, ack, ack bitfield, tick; then one message
    // and an empty entity block
    assert_eq!(
        packet,
        vec![4, 0, 0, 0, 0, 0, 0, 0, 0, 0, 0, 1, 0, 1, 7, 8, 0],
    );
}
