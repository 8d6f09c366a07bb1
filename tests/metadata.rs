use feather_net::entitymeta::{put_metadata, try_get_metadata, Direction, EntityMetadata, MetaEntry};
use feather_net::mctypes::{BlockPosition, ByteReader, McTypeError};

fn encode(meta: &EntityMetadata) -> Vec<u8> {
    let mut buf = Vec::new();
    put_metadata(&mut buf, meta);
    buf
}

#[test]
fn direction_ids() {
    assert_eq!(Direction::Down.id(), 0);
    assert_eq!(Direction::Up.id(), 1);
    assert_eq!(Direction::North.id(), 2);
    assert_eq!(Direction::South.id(), 3);
    assert_eq!(Direction::West.id(), 4);
    assert_eq!(Direction::East.id(), 5);
    assert_eq!(Direction::from_id(5), Some(Direction::East));
    assert_eq!(Direction::from_id(6), None);
}

#[test]
fn empty_metadata_is_end_marker() {
    let meta = EntityMetadata::new();
    assert_eq!(encode(&meta), vec![0xFF]);
    assert_eq!(meta.size(), 1);
}

#[test]
fn entries_at_0_5_254_round_trip() {
    let meta = EntityMetadata::new().with(&[
        (0, MetaEntry::Byte(-3)),
        (5, MetaEntry::String(String::from("hello"))),
        (254, MetaEntry::OptPosition(Some(BlockPosition::new(-5, 64, 7)))),
    ]);
    let bytes = encode(&meta);
    assert_eq!(*bytes.last().unwrap(), 0xFF);
    assert_eq!(bytes[0], 0);
    assert_eq!(bytes[1], 0);
    assert_eq!(bytes[2], 0xFD);
    assert!(bytes.len() <= meta.size());
    let mut r = ByteReader::new(bytes.clone());
    let back = try_get_metadata(&mut r, 1000).unwrap();
    assert_eq!(r.remaining(), 0);
    assert!(matches!(back.get(0), Some(MetaEntry::Byte(-3))));
    assert!(matches!(back.get(5), Some(MetaEntry::String(s)) if s == "hello"));
    assert!(matches!(
        back.get(254),
        Some(MetaEntry::OptPosition(Some(p))) if *p == BlockPosition::new(-5, 64, 7)
    ));
    assert!(back.get(1).is_none());
    assert_eq!(encode(&back), bytes);
}

#[test]
fn every_kind_round_trips() {
    let meta = EntityMetadata::new().with(&[
        (1, MetaEntry::VarInt(-77)),
        (2, MetaEntry::Float(1.5f32.to_bits())),
        (3, MetaEntry::Chat(String::from("{}"))),
        (4, MetaEntry::OptChat(Some(String::from("x")))),
        (6, MetaEntry::OptChat(None)),
        (7, MetaEntry::Boolean(true)),
        (8, MetaEntry::Rotation(1, 2, 3)),
        (9, MetaEntry::Position(BlockPosition::new(1, 2, 3))),
        (10, MetaEntry::OptPosition(None)),
        (11, MetaEntry::Direction(Direction::West)),
        (12, MetaEntry::OptUuid(Some(42))),
        (13, MetaEntry::OptBlockId(Some(9))),
        (14, MetaEntry::Slot(None)),
    ]);
    let bytes = encode(&meta);
    let mut r = ByteReader::new(bytes.clone());
    let back = try_get_metadata(&mut r, 10).unwrap();
    assert_eq!(encode(&back), bytes);
    assert!(matches!(back.get(2), Some(MetaEntry::Float(b)) if f32::from_bits(*b) == 1.5));
}

#[test]
fn absent_block_id_and_zero_are_the_same() {
    let none = EntityMetadata::new().with(&[(3, MetaEntry::OptBlockId(None))]);
    let zero = EntityMetadata::new().with(&[(3, MetaEntry::OptBlockId(Some(0)))]);
    assert_eq!(encode(&none), encode(&zero));
    let mut r = ByteReader::new(encode(&zero));
    let back = try_get_metadata(&mut r, 0).unwrap();
    assert!(matches!(back.get(3), Some(MetaEntry::OptBlockId(None))));
}

#[test]
fn later_entry_replaces_earlier() {
    let meta = EntityMetadata::new().with(&[(7, MetaEntry::VarInt(1)), (7, MetaEntry::VarInt(2))]);
    assert_eq!(encode(&meta), vec![7, 1, 2, 0xFF]);
    let mut r = ByteReader::new(vec![7, 1, 1, 7, 1, 2, 0xFF]);
    let back = try_get_metadata(&mut r, 0).unwrap();
    assert!(matches!(back.get(7), Some(MetaEntry::VarInt(2))));
}

#[test]
fn unknown_tag_is_refused() {
    let mut r = ByteReader::new(vec![0, 99, 0, 0xFF]);
    assert_eq!(try_get_metadata(&mut r, 0).err(), Some(McTypeError::UnknownMetadataType(99)));
}

#[test]
fn missing_end_marker_is_truncated() {
    let mut r = ByteReader::new(vec![0, 0, 5]);
    assert_eq!(try_get_metadata(&mut r, 0).err(), Some(McTypeError::NotEnoughBytes));
}

#[test]
fn bad_direction_is_refused() {
    let mut r = ByteReader::new(vec![0, 11, 6, 0xFF]);
    assert_eq!(try_get_metadata(&mut r, 0).err(), Some(McTypeError::InvalidDirection(6)));
}

#[test]
fn size_bounds_each_kind() {
    assert_eq!(MetaEntry::Byte(0).size(), 1);
    assert_eq!(MetaEntry::String(String::from("abc")).size(), 8);
    assert_eq!(MetaEntry::OptChat(Some(String::from("abc"))).size(), 9);
    assert_eq!(MetaEntry::OptUuid(None).size(), 17);
    let meta = EntityMetadata::new().with(&[(0, MetaEntry::VarInt(1))]);
    assert_eq!(meta.size(), 1 + 1 + 5 + 5);
}

#[test]
fn default_is_empty() {
    let meta = EntityMetadata::default();
    assert!(meta.get(0).is_none());
    assert_eq!(encode(&meta), vec![0xFF]);
}

#[test]
fn blob_and_particle_tags_are_unsupported() {
    let mut r = ByteReader::new(vec![0, 14, 0, 0xFF]);
    assert_eq!(try_get_metadata(&mut r, 0).err(), Some(McTypeError::UnsupportedMetadataType(14)));
    let mut r = ByteReader::new(vec![0, 15, 0xFF]);
    assert_eq!(try_get_metadata(&mut r, 0).err(), Some(McTypeError::UnsupportedMetadataType(15)));
}
