use netsync::bytes::PacketReader;
use netsync::client_entity_manager::{ClientEntityManager, ClientEntityMessage};
use netsync::command_receiver::CommandReceiver;
use netsync::diff_mask::DiffMask;
use netsync::entity_action::{EntityAction, LocalityStatus};
use netsync::entity_manager::EntityManager;
use netsync::message_manager::MessageManager;
use netsync::replica::{Manifest, Replica};
use netsync::world_record::WorldRecord;

fn small_world() -> (WorldRecord, Manifest) {
    let mut wr = WorldRecord::new();
    wr.spawn_entity(1);
    // component key 10 of kind 7 on entity 1; kind 7 has 4 properties
    wr.add_component(1, 10, 7);
    let mut manifest = Manifest::new();
    manifest.register_kind(7, 4);
    (wr, manifest)
}

fn live_mask_byte(em: &EntityManager, component: u16) -> u8 {
    let mask = em
        .diff_handler
        .get_diff_mask(component)
        .expect("component should be registered");
    mask.bytes[0]
}

#[test]
fn message_manager_guaranteed_drop_requeues() {
    let mut mm = MessageManager::new();
    let hello = Replica::new(3, vec![1, 2]);
    let lossy = Replica::new(3, vec![9, 9]);
    mm.queue_outgoing_message(&hello, true);
    mm.queue_outgoing_message(&lossy, false);
    let first = mm.pop_outgoing_message(41).expect("first pop");
    assert!(first.equals(&hello));
    let second = mm.pop_outgoing_message(41).expect("second pop");
    assert!(second.equals(&lossy));
    assert!(!mm.has_outgoing_messages());
    // the drop restores the guaranteed message only, in order
    mm.notify_packet_dropped(41);
    let requeued = mm.pop_outgoing_message(42).expect("requeued pop");
    assert!(requeued.equals(&hello));
    assert!(!mm.has_outgoing_messages());
    // a second notification for the same packet finds nothing
    mm.notify_packet_dropped(41);
    assert!(!mm.has_outgoing_messages());
}

#[test]
fn message_manager_delivery_forgets_the_record() {
    let mut mm = MessageManager::new();
    let hello = Replica::new(3, vec![1]);
    mm.queue_outgoing_message(&hello, true);
    let _ = mm.pop_outgoing_message(7);
    mm.notify_packet_delivered(7);
    mm.notify_packet_dropped(7);
    assert!(!mm.has_outgoing_messages());
}

#[test]
fn message_manager_unpop_restores_front() {
    let mut mm = MessageManager::new();
    let a = Replica::new(3, vec![1]);
    let b = Replica::new(3, vec![2]);
    mm.queue_outgoing_message(&a, true);
    mm.queue_outgoing_message(&b, true);
    let popped = mm.pop_outgoing_message(5).expect("pop");
    mm.unpop_outgoing_message(5, popped);
    let again = mm.pop_outgoing_message(6).expect("pop again");
    assert!(again.equals(&a));
    mm.notify_packet_delivered(5);
    // dropping packet 6 re-enqueues its message at the tail, after b
    mm.notify_packet_dropped(6);
    let next = mm.pop_outgoing_message(8).expect("tail of queue");
    assert!(next.equals(&b));
    let requeued = mm.pop_outgoing_message(8).expect("requeue");
    assert!(requeued.equals(&a));
}

#[test]
fn message_manager_rejects_malformed_block() {
    let mut mm = MessageManager::new();
    let mut manifest = Manifest::new();
    manifest.register_kind(3, 2);
    // one message of unknown kind 9
    let mut reader = PacketReader::new(vec![1, 0, 9, 1, 2]);
    assert!(!mm.process_data(&mut reader, &manifest));
    assert!(!mm.has_incoming_messages());
    // one well-formed message of kind 3
    let mut reader2 = PacketReader::new(vec![1, 0, 3, 5, 6]);
    assert!(mm.process_data(&mut reader2, &manifest));
    let m = mm.pop_incoming_message().expect("incoming");
    assert_eq!(m.kind, 3);
    assert_eq!(m.properties, vec![5, 6]);
}

#[test]
fn spawn_pops_with_resolved_components_and_consumes_masks() {
    let (wr, manifest) = small_world();
    let mut em = EntityManager::new();
    em.spawn_entity(&wr, &manifest, 1);
    // a mutation before the spawn pops rides with the spawn payload
    em.diff_handler.notify_mutation(10, 0);
    let action = em.pop_outgoing_action(&wr, 1).expect("spawn pop");
    match action {
        EntityAction::SpawnEntity { entity, components } => {
            assert_eq!(entity, 1);
            assert_eq!(components, vec![(10, 7)]);
        },
        _ => panic!("expected a spawn action"),
    }
    // the mask was consumed by the spawn
    assert_eq!(live_mask_byte(&em, 10), 0);
    // upon delivery the records transition to created
    em.notify_packet_delivered(1);
    em.process_delivered_packets(&wr);
    assert_eq!(em.entity_records.get(1).unwrap().status, LocalityStatus::Created);
    assert_eq!(em.component_records.get(10).unwrap().status, LocalityStatus::Created);
}

#[test]
fn update_drop_folds_back_only_uncovered_bits() {
    let (wr, manifest) = small_world();
    let mut em = EntityManager::new();
    em.spawn_entity(&wr, &manifest, 1);
    let _ = em.pop_outgoing_action(&wr, 1);
    em.notify_packet_delivered(1);
    em.process_delivered_packets(&wr);
    // bit 0 dirty: update rides in packet 2
    em.diff_handler.notify_mutation(10, 0);
    em.collect_component_updates(&wr);
    let _ = em.pop_outgoing_action(&wr, 2).expect("update pop");
    assert_eq!(live_mask_byte(&em, 10), 0);
    // bit 1 dirty: update rides in packet 3
    em.diff_handler.notify_mutation(10, 1);
    em.collect_component_updates(&wr);
    let _ = em.pop_outgoing_action(&wr, 3).expect("update pop");
    // packet 2 drops: bit 0 folds back; bit 1 is still in flight in 3
    em.notify_packet_dropped(2);
    assert_eq!(live_mask_byte(&em, 10), 0b0000_0001);
    // the next collected update re-sends exactly bit 0
    em.collect_component_updates(&wr);
    match em.pop_outgoing_action(&wr, 4).expect("resend pop") {
        EntityAction::UpdateComponent { component, mask, .. } => {
            assert_eq!(component, 10);
            assert_eq!(mask.bytes, vec![0b0000_0001]);
        },
        _ => panic!("expected an update action"),
    }
}

#[test]
fn dropped_update_defers_to_the_newest_in_flight_update() {
    let (wr, manifest) = small_world();
    let mut em = EntityManager::new();
    em.spawn_entity(&wr, &manifest, 1);
    let _ = em.pop_outgoing_action(&wr, 1);
    em.notify_packet_delivered(1);
    em.process_delivered_packets(&wr);
    // bit 0 dirty: update rides in packet 2
    em.diff_handler.notify_mutation(10, 0);
    em.collect_component_updates(&wr);
    let _ = em.pop_outgoing_action(&wr, 2).expect("update pop");
    // bit 0 dirty again: a second update rides in packet 3, the newest
    em.diff_handler.notify_mutation(10, 0);
    em.collect_component_updates(&wr);
    let _ = em.pop_outgoing_action(&wr, 3).expect("update pop");
    // packet 2 drops: the newest in-flight update still carries bit 0,
    // so nothing folds back and the bit is not re-sent twice
    em.notify_packet_dropped(2);
    assert_eq!(live_mask_byte(&em, 10), 0);
}

#[test]
fn despawn_before_ack_waits_for_the_spawn() {
    let (wr, manifest) = small_world();
    let mut em = EntityManager::new();
    em.spawn_entity(&wr, &manifest, 1);
    let _ = em.pop_outgoing_action(&wr, 1);
    // despawn while the spawn is in flight: the delete is delayed
    em.despawn_entity(&wr, 1);
    assert!(!em.has_outgoing_actions());
    assert!(em.delayed_entity_deletions.contains(1));
    // on the spawn's ack the despawn action enters the queue
    em.notify_packet_delivered(1);
    em.process_delivered_packets(&wr);
    match em.pop_outgoing_action(&wr, 2).expect("despawn pop") {
        EntityAction::DespawnEntity { entity } => assert_eq!(entity, 1),
        _ => panic!("expected a despawn action"),
    }
}

#[test]
fn unpop_restores_queue_and_masks() {
    let (wr, manifest) = small_world();
    let mut em = EntityManager::new();
    em.spawn_entity(&wr, &manifest, 1);
    let _ = em.pop_outgoing_action(&wr, 1);
    em.notify_packet_delivered(1);
    em.process_delivered_packets(&wr);
    em.diff_handler.notify_mutation(10, 2);
    em.collect_component_updates(&wr);
    let action = em.pop_outgoing_action(&wr, 2).expect("update pop");
    assert_eq!(live_mask_byte(&em, 10), 0);
    // the action does not fit: unpop restores the mask and the queue
    em.unpop_outgoing_action(2, action);
    assert_eq!(live_mask_byte(&em, 10), 0b0000_0100);
    assert!(em.has_outgoing_actions());
    assert!(em.sent_updates.get(2).is_none());
}

#[test]
fn dropped_spawn_requeues_verbatim() {
    let (wr, manifest) = small_world();
    let mut em = EntityManager::new();
    em.spawn_entity(&wr, &manifest, 1);
    let _ = em.pop_outgoing_action(&wr, 1);
    assert!(!em.has_outgoing_actions());
    em.notify_packet_dropped(1);
    assert!(em.has_outgoing_actions());
    // a duplicate drop notification requeues nothing more
    em.notify_packet_dropped(1);
    match em.pop_outgoing_action(&wr, 2).expect("requeued spawn") {
        EntityAction::SpawnEntity { entity, .. } => assert_eq!(entity, 1),
        _ => panic!("expected a spawn action"),
    }
    assert!(!em.has_outgoing_actions());
}

#[test]
fn insert_component_queues_only_when_entity_created() {
    let (mut wr, manifest) = small_world();
    let mut em = EntityManager::new();
    em.spawn_entity(&wr, &manifest, 1);
    let _ = em.pop_outgoing_action(&wr, 1);
    em.notify_packet_delivered(1);
    em.process_delivered_packets(&wr);
    // a component registered after the spawn acked queues an insert
    wr.add_component(1, 11, 7);
    em.insert_component(&wr, &manifest, 11);
    match em.pop_outgoing_action(&wr, 2).expect("insert pop") {
        EntityAction::InsertComponent { entity, component, kind } => {
            assert_eq!((entity, component, kind), (1, 11, 7));
        },
        _ => panic!("expected an insert action"),
    }
}

fn client_create_bytes(kind: u16, key: u16, payload: &[u8]) -> Vec<u8> {
    let mut b = vec![0u8, (kind >> 8) as u8, kind as u8, (key >> 8) as u8, key as u8];
    b.push(payload.len() as u8);
    b.extend_from_slice(payload);
    b
}

fn client_update_bytes(key: u16, mask: &[u8], payload: &[u8]) -> Vec<u8> {
    let mut b = vec![2u8, (key >> 8) as u8, key as u8];
    b.push(mask.len() as u8);
    b.extend_from_slice(mask);
    b.push(payload.len() as u8);
    b.extend_from_slice(payload);
    b
}

#[test]
fn client_applies_creates_updates_and_ignores_duplicates() {
    let mut manifest = Manifest::new();
    manifest.register_kind(7, 2);
    let mut cem = ClientEntityManager::new();
    let mut receiver = CommandReceiver::new();
    let mut block = vec![2u8];
    block.extend(client_create_bytes(7, 3, &[5, 6]));
    block.extend(client_create_bytes(7, 3, &[9, 9]));
    let mut reader = PacketReader::new(block);
    assert!(cem.process_data(&manifest, &mut receiver, 0, &mut reader));
    // the duplicate create was ignored
    let created = cem.get_local_entity(3).expect("created entity");
    assert_eq!(created.properties, vec![5, 6]);
    assert_eq!(cem.pop_incoming_message(), Some(ClientEntityMessage::Create { local_key: 3 }));
    assert_eq!(cem.pop_incoming_message(), None);
    // a masked update overwrites property 1 only
    let mut block2 = vec![1u8];
    block2.extend(client_update_bytes(3, &[0b0000_0010], &[77]));
    let mut reader2 = PacketReader::new(block2);
    assert!(cem.process_data(&manifest, &mut receiver, 0, &mut reader2));
    let updated = cem.get_local_entity(3).expect("updated entity");
    assert_eq!(updated.properties, vec![5, 77]);
}

#[test]
fn client_rejects_malformed_block_whole() {
    let manifest = Manifest::new();
    let mut cem = ClientEntityManager::new();
    let mut receiver = CommandReceiver::new();
    // claims two actions but holds an unknown type byte
    let mut reader = PacketReader::new(vec![2, 9, 0, 0]);
    assert!(!cem.process_data(&manifest, &mut receiver, 0, &mut reader));
    assert_eq!(cem.pop_incoming_message(), None);
}

#[test]
fn matching_prediction_replays_nothing() {
    let mut manifest = Manifest::new();
    manifest.register_kind(7, 1);
    let mut cem = ClientEntityManager::new();
    let mut receiver = CommandReceiver::new();
    // create the entity with x = 0 and assign it as a pawn
    let mut block = vec![2u8];
    block.extend(client_create_bytes(7, 3, &[0]));
    block.extend(vec![3u8, 0, 3]);
    let mut reader = PacketReader::new(block);
    assert!(cem.process_data(&manifest, &mut receiver, 0, &mut reader));
    // record commands around the tick of interest
    let nudge = Replica::new(8, vec![1]);
    receiver.queue_command(103, 3, &nudge);
    receiver.queue_command(104, 3, &nudge);
    while receiver.pop_command().is_some() {}
    // the snapshot at tick 103 predicts x = 0
    cem.save_replay_snapshot(103, 3);
    // the server's update for tick 103 also says x = 0: agreement
    let mut block2 = vec![1u8];
    block2.extend(client_update_bytes(3, &[0b0000_0001], &[0]));
    let mut reader2 = PacketReader::new(block2);
    assert!(cem.process_data(&manifest, &mut receiver, 103, &mut reader2));
    assert!(receiver.pop_command().is_none());
}

#[test]
fn diverging_prediction_replays_later_commands() {
    let mut manifest = Manifest::new();
    manifest.register_kind(7, 1);
    let mut cem = ClientEntityManager::new();
    let mut receiver = CommandReceiver::new();
    let mut block = vec![2u8];
    block.extend(client_create_bytes(7, 3, &[1]));
    block.extend(vec![3u8, 0, 3]);
    let mut reader = PacketReader::new(block);
    assert!(cem.process_data(&manifest, &mut receiver, 0, &mut reader));
    let nudge = Replica::new(8, vec![1]);
    receiver.queue_command(103, 3, &nudge);
    receiver.queue_command(104, 3, &nudge);
    receiver.queue_command(105, 3, &nudge);
    while receiver.pop_command().is_some() {}
    // prediction at tick 103: x = 1
    cem.save_replay_snapshot(103, 3);
    // the server rejected the move: x = 0 at tick 103
    let mut block2 = vec![1u8];
    block2.extend(client_update_bytes(3, &[0b0000_0001], &[0]));
    let mut reader2 = PacketReader::new(block2);
    assert!(cem.process_data(&manifest, &mut receiver, 103, &mut reader2));
    // exactly the commands after tick 103 replay, oldest first
    let first = receiver.pop_command().expect("first replay");
    assert_eq!((first.0, first.1), (104, 3));
    let second = receiver.pop_command().expect("second replay");
    assert_eq!((second.0, second.1), (105, 3));
    assert!(receiver.pop_command().is_none());
}

#[test]
fn unassigned_pawn_drops_its_history() {
    let mut manifest = Manifest::new();
    manifest.register_kind(7, 1);
    let mut cem = ClientEntityManager::new();
    let mut receiver = CommandReceiver::new();
    let mut block = vec![3u8];
    block.extend(client_create_bytes(7, 3, &[1]));
    block.extend(vec![3u8, 0, 3]);
    block.extend(vec![4u8, 0, 3]);
    let mut reader = PacketReader::new(block);
    assert!(cem.process_data(&manifest, &mut receiver, 0, &mut reader));
    assert!(cem.get_pawn(3).is_none());
    assert!(cem.get_local_entity(3).is_some());
}
