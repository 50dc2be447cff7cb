use netsync::bytes::PacketReader;
use netsync::diff_mask::DiffMask;
use netsync::key_generator::KeyGenerator;
use netsync::replica::{Manifest, Replica};
use netsync::sequence_buffer::SequenceBuffer;

#[test]
fn diff_mask_set_and_get_bits() {
    let mut m = DiffMask::new(2);
    assert!(m.is_clear());
    m.set_bit(0);
    m.set_bit(9);
    assert!(m.get_bit(0));
    assert!(!m.get_bit(1));
    assert!(m.get_bit(9));
    assert_eq!(m.bytes, vec![0b0000_0001, 0b0000_0010]);
    m.clear();
    assert!(m.is_clear());
}

#[test]
fn diff_mask_or_and_nand() {
    let mut a = DiffMask::new(1);
    a.set_bit(0);
    a.set_bit(2);
    let mut b = DiffMask::new(1);
    b.set_bit(2);
    b.set_bit(3);
    let mut or_result = a.clone_mask();
    or_result.or(&b);
    assert_eq!(or_result.bytes, vec![0b0000_1101]);
    // nand clears in a every bit set in b
    let mut nand_result = a.clone_mask();
    nand_result.nand(&b);
    assert_eq!(nand_result.bytes, vec![0b0000_0001]);
}

#[test]
fn diff_mask_serialize_round_trip() {
    let mut m = DiffMask::new(3);
    m.set_bit(1);
    m.set_bit(17);
    let mut out: Vec<u8> = Vec::new();
    m.write(&mut out);
    assert_eq!(out, vec![3, 0b0000_0010, 0, 0b0000_0010]);
    let mut reader = PacketReader::new(out);
    let back = DiffMask::read(&mut reader).expect("mask should parse");
    assert_eq!(back.bytes, m.bytes);
}

#[test]
fn sequence_buffer_insert_then_get() {
    let mut buf: SequenceBuffer<u32> = SequenceBuffer::with_capacity(8);
    buf.insert(1, 10);
    assert_eq!(buf.get(1).copied(), Some(10));
    // another slot leaves it untouched
    buf.insert(2, 30);
    assert_eq!(buf.get(1).copied(), Some(10));
    // the same slot evicts it: 9 % 8 == 1 % 8
    buf.insert(9, 20);
    assert_eq!(buf.get(1).copied(), None);
    assert_eq!(buf.get(9).copied(), Some(20));
}

#[test]
fn sequence_buffer_remove_until() {
    let mut buf: SequenceBuffer<u32> = SequenceBuffer::with_capacity(8);
    buf.insert(3, 3);
    buf.insert(4, 4);
    buf.insert(5, 5);
    buf.remove_until(4);
    assert_eq!(buf.get(3).copied(), None);
    assert_eq!(buf.get(4).copied(), None);
    assert_eq!(buf.get(5).copied(), Some(5));
}

#[test]
fn key_generator_monotonic_and_lifo_recycling() {
    let mut gen = KeyGenerator::new();
    let a = gen.generate();
    let b = gen.generate();
    let c = gen.generate();
    assert_eq!((a, b, c), (0, 1, 2));
    gen.recycle_key(a);
    gen.recycle_key(b);
    // recycled keys come back first, most recent first
    assert_eq!(gen.generate(), b);
    assert_eq!(gen.generate(), a);
    assert_eq!(gen.generate(), 3);
}

#[test]
fn reader_big_endian_round_trips() {
    let mut out: Vec<u8> = Vec::new();
    netsync::bytes::write_u16_be(&mut out, 0xBEEF);
    netsync::bytes::write_u32_be(&mut out, 0xDEAD_BEEF);
    assert_eq!(out, vec![0xBE, 0xEF, 0xDE, 0xAD, 0xBE, 0xEF]);
    let mut reader = PacketReader::new(out);
    assert_eq!(reader.read_u16_be(), Some(0xBEEF));
    assert_eq!(reader.read_u32_be(), Some(0xDEAD_BEEF));
    assert_eq!(reader.read_u8(), None);
}

#[test]
fn replica_partial_write_and_read() {
    let rep = Replica::new(7, vec![10, 20, 30, 40]);
    let mut mask = DiffMask::new(1);
    mask.set_bit(0);
    mask.set_bit(2);
    let mut out: Vec<u8> = Vec::new();
    rep.write_partial(&mask, &mut out);
    assert_eq!(out, vec![10, 30]);
    // reading those bytes under the same mask reproduces the properties
    let mut target = Replica::new(7, vec![0, 20, 0, 40]);
    let mut reader = PacketReader::new(out);
    let ok = target.read_partial(&mask, &mut reader);
    assert!(ok);
    assert!(target.equals(&rep));
}

#[test]
fn replica_partial_read_rejects_short_payload() {
    let mut mask = DiffMask::new(1);
    mask.set_bit(0);
    mask.set_bit(1);
    let mut target = Replica::new(7, vec![0, 0]);
    let mut reader = PacketReader::new(vec![99]);
    let ok = target.read_partial(&mask, &mut reader);
    assert!(!ok);
}

#[test]
fn manifest_creates_replicas_of_known_kinds() {
    let mut manifest = Manifest::new();
    manifest.register_kind(7, 4);
    assert_eq!(manifest.size_on_wire(7), Some(4));
    assert_eq!(manifest.size_on_wire(8), None);
    let mut reader = PacketReader::new(vec![1, 2, 3, 4, 99]);
    let rep = manifest.create_replica(7, &mut reader).expect("known kind should parse");
    assert_eq!(rep.kind, 7);
    assert_eq!(rep.properties, vec![1, 2, 3, 4]);
    // unknown kind consumes nothing
    let mut reader2 = PacketReader::new(vec![1, 2, 3, 4]);
    assert!(manifest.create_replica(9, &mut reader2).is_none());
    assert_eq!(reader2.pos, 0);
}
