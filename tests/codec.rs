use feather_net::mctypes::{
    put_block_position, put_bool, put_frame, put_nbt, take_frames, put_slot, put_string, put_uuid, put_var_int,
    varint_needed_bytes, BlockPosition, ByteReader, ItemStack, McTypeError,
};

fn varint_bytes(x: i32) -> Vec<u8> {
    let mut buf = Vec::new();
    put_var_int(&mut buf, x);
    buf
}

#[test]
fn varint_known_encodings() {
    assert_eq!(varint_bytes(0), vec![0x00]);
    assert_eq!(varint_bytes(1), vec![0x01]);
    assert_eq!(varint_bytes(127), vec![0x7f]);
    assert_eq!(varint_bytes(128), vec![0x80, 0x01]);
    assert_eq!(varint_bytes(255), vec![0xff, 0x01]);
    assert_eq!(varint_bytes(2097151), vec![0xff, 0xff, 0x7f]);
    assert_eq!(varint_bytes(2147483647), vec![0xff, 0xff, 0xff, 0xff, 0x07]);
    assert_eq!(varint_bytes(-1), vec![0xff, 0xff, 0xff, 0xff, 0x0f]);
    assert_eq!(varint_bytes(-2147483648), vec![0x80, 0x80, 0x80, 0x80, 0x08]);
}

#[test]
fn varint_round_trip_and_minimal_length() {
    let values = [
        0, 1, 127, 128, 16383, 16384, 2097151, 2097152, 268435455, 268435456, i32::MAX, -1,
        i32::MIN, -300,
    ];
    for &v in values.iter() {
        let mut buf = Vec::new();
        let n = put_var_int(&mut buf, v);
        assert_eq!(n, buf.len());
        assert_eq!(n, varint_needed_bytes(v));
        buf.push(0xAB);
        let mut r = ByteReader::new(buf);
        assert_eq!(r.try_get_var_int(), Ok(v));
        assert_eq!(r.remaining(), 1);
    }
}

#[test]
fn varint_needed_bytes_formula() {
    assert_eq!(varint_needed_bytes(0), 1);
    assert_eq!(varint_needed_bytes(1), 1);
    assert_eq!(varint_needed_bytes(127), 1);
    assert_eq!(varint_needed_bytes(128), 2);
    assert_eq!(varint_needed_bytes(16384), 3);
    assert_eq!(varint_needed_bytes(i32::MAX), 5);
    assert_eq!(varint_needed_bytes(-1), 5);
}

#[test]
fn varint_too_big_and_truncated() {
    let mut r = ByteReader::new(vec![0x80, 0x80, 0x80, 0x80, 0x80, 0x01]);
    assert_eq!(r.try_get_var_int(), Err(McTypeError::VarIntTooBig(6)));
    let mut r = ByteReader::new(vec![0x80, 0x80]);
    assert_eq!(r.try_get_var_int(), Err(McTypeError::NotEnoughBytes));
    let mut r = ByteReader::new(vec![]);
    assert_eq!(r.try_get_var_int(), Err(McTypeError::NotEnoughBytes));
}

#[test]
fn truncated_primitives() {
    let mut r = ByteReader::new(vec![]);
    assert_eq!(r.try_get_bool(), Err(McTypeError::NotEnoughBytes));
    let mut r = ByteReader::new(vec![0; 15]);
    assert_eq!(r.try_get_uuid(), Err(McTypeError::NotEnoughBytes));
    assert_eq!(r.remaining(), 15);
    let mut r = ByteReader::new(vec![0; 7]);
    assert_eq!(r.try_get_block_position(), Err(McTypeError::NotEnoughBytes));
    let mut r = ByteReader::new(vec![3, b'a', b'b']);
    assert_eq!(r.try_get_string(), Err(McTypeError::NotEnoughBytes));
    let mut r = ByteReader::new(vec![1, 5]);
    assert_eq!(r.try_get_slot(10), Err(McTypeError::NotEnoughBytes));
}

#[test]
fn string_round_trip() {
    let mut buf = Vec::new();
    put_string(&mut buf, "Steve");
    assert_eq!(buf, vec![5, b'S', b't', b'e', b'v', b'e']);
    let mut r = ByteReader::new(buf);
    assert_eq!(r.try_get_string(), Ok(String::from("Steve")));
    assert_eq!(r.remaining(), 0);
}

#[test]
fn string_bytes_are_kept_one_per_char() {
    let mut r = ByteReader::new(vec![2, 0xC3, 0xA9]);
    let s = r.try_get_string().unwrap();
    let chars: Vec<u32> = s.chars().map(|c| c as u32).collect();
    assert_eq!(chars, vec![0xC3, 0xA9]);
}

#[test]
fn oversized_string_is_refused_before_payload() {
    let mut buf = Vec::new();
    put_var_int(&mut buf, 65537);
    let mut r = ByteReader::new(buf);
    assert_eq!(r.try_get_string(), Err(McTypeError::StringTooLong(65537, 65536)));
    let mut buf = Vec::new();
    put_var_int(&mut buf, -1);
    let mut r = ByteReader::new(buf);
    assert_eq!(r.try_get_string(), Err(McTypeError::StringTooLong(-1i32 as usize, 65536)));
}

#[test]
fn bool_encoding() {
    let mut buf = Vec::new();
    put_bool(&mut buf, true);
    put_bool(&mut buf, false);
    buf.push(2);
    assert_eq!(buf, vec![1, 0, 2]);
    let mut r = ByteReader::new(buf);
    assert_eq!(r.try_get_bool(), Ok(true));
    assert_eq!(r.try_get_bool(), Ok(false));
    assert_eq!(r.try_get_bool(), Err(McTypeError::InvalidBoolean(2)));
}

#[test]
fn uuid_is_big_endian() {
    let u: u128 = 0x0011_2233_4455_6677_8899_aabb_ccdd_eeff;
    let mut buf = Vec::new();
    put_uuid(&mut buf, u);
    assert_eq!(buf[0], 0x00);
    assert_eq!(buf[15], 0xff);
    assert_eq!(buf.len(), 16);
    let mut r = ByteReader::new(buf);
    assert_eq!(r.try_get_uuid(), Ok(u));
}

fn position_round_trip(x: i32, y: i32, z: i32) -> BlockPosition {
    let mut buf = Vec::new();
    put_block_position(&mut buf, &BlockPosition::new(x, y, z));
    assert_eq!(buf.len(), 8);
    let mut r = ByteReader::new(buf);
    r.try_get_block_position().unwrap()
}

#[test]
fn block_position_edges() {
    let edges = [
        (0, 0, 0),
        (33554431, 2047, 33554431),
        (-33554432, -2048, -33554432),
        (-1, -1, -1),
        (1, -2048, -33554432),
        (-33554432, 2047, 1),
    ];
    for &(x, y, z) in edges.iter() {
        assert_eq!(position_round_trip(x, y, z), BlockPosition::new(x, y, z));
    }
}

#[test]
fn block_position_layout() {
    let mut buf = Vec::new();
    put_block_position(&mut buf, &BlockPosition::new(1, 2, 3));
    let word = u64::from_be_bytes([buf[0], buf[1], buf[2], buf[3], buf[4], buf[5], buf[6], buf[7]]);
    assert_eq!(word, (1u64 << 38) | (2u64 << 26) | 3);
}

#[test]
fn slot_round_trip_and_invalid_id() {
    let mut buf = Vec::new();
    put_slot(&mut buf, &Some(ItemStack { item: 300, amount: 64 }));
    assert_eq!(buf, vec![1, 0xAC, 0x02, 64, 0]);
    put_slot(&mut buf, &None);
    let mut r = ByteReader::new(buf.clone());
    assert_eq!(r.try_get_slot(1000), Ok(Some(ItemStack { item: 300, amount: 64 })));
    assert_eq!(r.try_get_slot(1000), Ok(None));
    let mut r = ByteReader::new(buf);
    assert_eq!(r.try_get_slot(300), Err(McTypeError::InvalidItemId(300)));
}

#[test]
fn nbt_blob_round_trip_consumes_exactly() {
    let mut blob = nbt::Blob::new();
    blob.insert("health", 20i8).unwrap();
    let mut buf = Vec::new();
    assert_eq!(put_nbt(&mut buf, &blob), Ok(()));
    let len = buf.len();
    assert!(len > 0);
    buf.push(0x42);
    let mut r = ByteReader::new(buf);
    let back = r.try_get_nbt().unwrap();
    assert_eq!(back, blob);
    assert_eq!(r.remaining(), 1);
    let mut r = ByteReader::new(vec![0x0a, 0x00]);
    assert_eq!(r.try_get_nbt().err(), Some(McTypeError::Nbt));
    assert_eq!(r.remaining(), 2);
}

#[test]
fn frames_split_a_stream() {
    let mut buf = Vec::new();
    put_frame(&mut buf, &vec![1, 2, 3]);
    put_frame(&mut buf, &vec![]);
    buf.push(5);
    buf.push(9);
    assert_eq!(buf, vec![3, 1, 2, 3, 0, 5, 9]);
    let mut r = ByteReader::new(buf);
    assert_eq!(r.try_get_frame(), Ok(vec![1, 2, 3]));
    assert_eq!(r.try_get_frame(), Ok(vec![]));
    assert_eq!(r.try_get_frame(), Err(McTypeError::NotEnoughBytes));
    let mut buf = Vec::new();
    put_var_int(&mut buf, -2);
    let mut r = ByteReader::new(buf);
    assert_eq!(r.try_get_frame(), Err(McTypeError::NegativeLength(-2)));
}

#[test]
fn errors_leave_the_reader_where_stated() {
    let mut r = ByteReader::new(vec![0x81, 0x80, 0x04, 7]);
    assert_eq!(r.try_get_string(), Err(McTypeError::StringTooLong(65537, 65536)));
    assert_eq!(r.remaining(), 1);
    let mut r = ByteReader::new(vec![2, 9]);
    assert_eq!(r.try_get_bool(), Err(McTypeError::InvalidBoolean(2)));
    assert_eq!(r.remaining(), 1);
    let mut r = ByteReader::new(vec![0x80, 0x80, 0x80, 0x80, 0x80, 0x01, 3]);
    assert_eq!(r.try_get_var_int(), Err(McTypeError::VarIntTooBig(6)));
    assert_eq!(r.remaining(), 2);
}

#[test]
fn malformed_blobs_are_refused_without_reading() {
    // A byte array of negative length inside the root compound.
    let bad = vec![0x0a, 0, 0, 7, 0, 1, b'a', 0xff, 0xff, 0xff, 0xff, 0];
    let mut r = ByteReader::new(bad);
    assert_eq!(r.try_get_nbt().err(), Some(McTypeError::Nbt));
    assert_eq!(r.remaining(), 12);
    // A list that claims far more elements than there are bytes.
    let bad = vec![0x0a, 0, 0, 9, 0, 1, b'l', 1, 0x7f, 0xff, 0xff, 0xff, 0];
    let mut r = ByteReader::new(bad);
    assert_eq!(r.try_get_nbt().err(), Some(McTypeError::Nbt));
    // Compounds nested deeper than allowed.
    let mut deep = vec![0x0a, 0, 0];
    for _ in 0..600 {
        deep.extend_from_slice(&[0x0a, 0, 0]);
    }
    for _ in 0..601 {
        deep.push(0);
    }
    let mut r = ByteReader::new(deep);
    assert_eq!(r.try_get_nbt().err(), Some(McTypeError::Nbt));
}

#[test]
fn blob_bytes_are_appended_after_existing_contents() {
    let blob = nbt::Blob::new();
    let mut buf = vec![9, 9];
    assert_eq!(put_nbt(&mut buf, &blob), Ok(()));
    assert_eq!(buf, vec![9, 9, 0x0a, 0, 0, 0]);
}

#[test]
fn take_frames_keeps_the_incomplete_tail() {
    let mut buf = Vec::new();
    put_frame(&mut buf, &vec![1, 2]);
    put_frame(&mut buf, &vec![3]);
    buf.extend_from_slice(&[4, 9, 9]);
    let (frames, left) = take_frames(buf).unwrap();
    assert_eq!(frames, vec![vec![1, 2], vec![3]]);
    assert_eq!(left, vec![4, 9, 9]);
    let (frames, left) = take_frames(vec![0x80]).unwrap();
    assert!(frames.is_empty());
    assert_eq!(left, vec![0x80]);
    let mut bad = Vec::new();
    put_var_int(&mut bad, -5);
    assert_eq!(take_frames(bad), Err(McTypeError::NegativeLength(-5)));
}

#[test]
fn new_metadata_encodes_to_end_marker() {
    let meta = feather_net::entitymeta::EntityMetadata::new();
    assert_eq!(meta.size(), 1);
    let mut buf = Vec::new();
    feather_net::entitymeta::put_metadata(&mut buf, &meta);
    assert_eq!(buf, vec![0xFF]);
}
