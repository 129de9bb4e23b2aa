use cyclonedds_rs::encode::{encode, EncodeError};
use cyclonedds_rs::key_hash::{get_keyhash, KeyHash};
use cyclonedds_rs::sample::{ChunkId, Sample, SampleData, SampleStorage};
use cyclonedds_rs::serdata::{
    eqkey, free_serdata, from_iox_buffer, get_size, key_hashes, scatter_gather_list, serdata_addref,
    serdata_from_decoded, serdata_from_fragchain, serdata_from_iov, serdata_from_keyhash, serdata_from_parts,
    serdata_from_sample, serdata_removeref, serdata_to_sample, serdata_to_ser, serdata_to_ser_ref,
    serdata_to_ser_unref, serdata_to_untyped, serialize_type, untyped_to_sample, Chunk, ChunkRelease, RData,
    RefError, SerData, SerError, SerRef, SubscriberId, IOX_CHUNK_CONTAINS_RAW_DATA,
    IOX_CHUNK_CONTAINS_SERIALIZED_DATA, SDK_DATA, SDK_EMPTY, SDK_KEY,
};
use cyclonedds_rs::serdata::{sample_release, sample_set_serdata};
use cyclonedds_rs::sertype::SerType;
use cyclonedds_rs::value::{Member, Prim, Shape, Value};
use std::sync::Arc;

fn member(shape: Shape) -> Member {
    Member { key: false, shape }
}

fn key(shape: Shape) -> Member {
    Member { key: true, shape }
}

fn point_type() -> SerType {
    let shape = Shape::Struct(vec![
        key(Shape::Scalar(Prim::U32)),
        member(Shape::Scalar(Prim::F64)),
        member(Shape::Scalar(Prim::F64)),
    ]);
    SerType::new(String::from("Point"), shape, true, 24).unwrap()
}

fn named_type() -> SerType {
    let shape = Shape::Struct(vec![key(Shape::Text), member(Shape::Scalar(Prim::U8))]);
    SerType::new(String::from("Named"), shape, false, 32).unwrap()
}

fn point(id: u32, x: f64, y: f64) -> Value {
    Value::Tuple(vec![Value::from_u32(id), Value::from_f64_bits(x.to_bits()), Value::from_f64_bits(y.to_bits())])
}

fn token(cell: &SerData) -> [u8; 16] {
    let mut out = [0xeeu8; 16];
    cyclonedds_rs::serdata::get_keyhash(cell, &mut out, false);
    out
}

fn decoded(cell: &SerData) -> Option<Value> {
    match cell.sample() {
        SampleData::SDKData(value) => Some((**value).clone()),
        _ => None,
    }
}

#[test]
fn a_cell_from_fragments_holds_the_value_and_its_hashes() {
    let sertype = point_type();
    let value = point(0x01020304, 1.5, -2.0);
    let bytes = encode(&value).unwrap();
    let chain = [
        RData { min: 0, maxp1: 10, payload: &bytes[0..10] },
        RData { min: 5, maxp1: 9, payload: &bytes[5..9] },
        RData { min: 5, maxp1: 28, payload: &bytes[5..28] },
    ];
    let list = scatter_gather_list(&chain, bytes.len()).unwrap();
    assert_eq!(list, vec![&bytes[0..10], &bytes[10..28]]);
    let cell = serdata_from_fragchain(&sertype, SDK_DATA, &chain, bytes.len()).unwrap();
    assert_eq!(decoded(&cell), Some(value));
    assert_eq!(cell.kind(), SDK_DATA);
    assert_eq!(cell.refc(), 1);
    assert!(cell.is_typed());
    assert_eq!(cell.iox_chunk(), None);
    assert!(cell.cdr().is_none());
    assert_eq!(token(&cell), [1, 2, 3, 4, 0, 0, 0, 0, 0, 0, 0, 0, 0, 0, 0, 0]);
    let key_cdr = [0u8, 0, 0, 0, 1, 2, 3, 4];
    assert_eq!(cell.hash(), murmur3::murmur3_32(&mut std::io::Cursor::new(&key_cdr), 0).unwrap());
}

#[test]
fn a_malformed_chain_gives_no_cell() {
    let sertype = point_type();
    let bytes = encode(&point(1, 0.0, 0.0)).unwrap();
    let size = bytes.len();
    let none: [RData; 0] = [];
    assert!(serdata_from_fragchain(&sertype, SDK_DATA, &none, size).is_none());
    let late = [RData { min: 1, maxp1: 28, payload: &bytes[1..28] }];
    assert!(serdata_from_fragchain(&sertype, SDK_DATA, &late, size).is_none());
    let gap = [
        RData { min: 0, maxp1: 10, payload: &bytes[0..10] },
        RData { min: 11, maxp1: 28, payload: &bytes[11..28] },
    ];
    assert!(serdata_from_fragchain(&sertype, SDK_DATA, &gap, size).is_none());
    let short = [RData { min: 0, maxp1: 28, payload: &bytes[0..20] }];
    assert!(serdata_from_fragchain(&sertype, SDK_DATA, &short, size).is_none());
    let beyond = [RData { min: 0, maxp1: 28, payload: &bytes[0..28] }];
    assert!(serdata_from_fragchain(&sertype, SDK_DATA, &beyond, 27).is_none());
    let cut = [RData { min: 0, maxp1: 20, payload: &bytes[0..20] }];
    assert!(serdata_from_fragchain(&sertype, SDK_DATA, &cut, size).is_none());
    let mut wrong = bytes.clone();
    wrong[1] = 9;
    let bad = [RData { min: 0, maxp1: 28, payload: &wrong[..] }];
    assert!(serdata_from_fragchain(&sertype, SDK_DATA, &bad, size).is_none());
    let whole = [RData { min: 0, maxp1: 28, payload: &bytes[..] }];
    assert!(serdata_from_fragchain(&sertype, SDK_DATA, &whole, size).is_some());
}

#[test]
fn a_cell_from_buffers_may_skip_the_transports_header() {
    let sertype = point_type();
    let value = point(9, 3.0, 4.0);
    let bytes = encode(&value).unwrap();
    let iov: [&[u8]; 3] = [&bytes[0..7], &bytes[7..8], &bytes[8..]];
    let cell = serdata_from_iov(&sertype, SDK_DATA, &iov, bytes.len(), 0).unwrap();
    assert_eq!(decoded(&cell), Some(value.clone()));

    let mut framed = vec![0xaau8, 0xbb, 0xcc, 0xdd];
    framed.extend_from_slice(&bytes);
    let iov: [&[u8]; 2] = [&framed[0..3], &framed[3..]];
    let cell = serdata_from_iov(&sertype, SDK_DATA, &iov, bytes.len(), 4).unwrap();
    assert_eq!(decoded(&cell), Some(value));
    assert!(serdata_from_iov(&sertype, SDK_DATA, &iov, bytes.len(), 0).is_none());
    assert!(serdata_from_iov(&sertype, SDK_DATA, &iov, bytes.len() - 1, 4).is_none());
    assert!(serdata_from_iov(&sertype, SDK_DATA, &iov, bytes.len(), 40).is_none());
}

#[test]
fn a_cell_from_a_key_hash_stands_for_the_key_alone() {
    let keyhash = [1u8, 2, 3, 4, 5, 6, 7, 8, 9, 10, 11, 12, 13, 14, 15, 16];
    let mut cell = serdata_from_keyhash(&point_type(), &keyhash).unwrap();
    assert_eq!(cell.kind(), SDK_KEY);
    assert!(matches!(cell.sample(), SampleData::SDKKey));
    assert_eq!(token(&cell), keyhash);
    assert_eq!(cell.key_hash().get_key_hash()[..4], [0, 0, 0, 0]);
    assert_eq!(get_size(&mut cell), 20);
    assert!(serdata_from_keyhash(&named_type(), &keyhash).is_none());
}

#[test]
fn a_cell_from_a_key_hash_is_refused_where_the_token_is_a_digest() {
    let keyhash = [9u8; 16];
    let long = |n: usize| {
        let shape = Shape::Struct(vec![
            key(Shape::Array(Box::new(Shape::Scalar(Prim::U8)), n)),
            member(Shape::Scalar(Prim::U32)),
        ]);
        SerType::new(String::from("Long"), shape, true, 24).unwrap()
    };
    assert!(!long(16).force_md5_keyhash());
    assert!(serdata_from_keyhash(&long(16), &keyhash).is_some());
    assert!(long(17).force_md5_keyhash());
    assert!(serdata_from_keyhash(&long(17), &keyhash).is_none());
    let value = Value::Tuple(vec![Value::Tuple((0..17).map(Value::from_u8).collect()), Value::from_u32(1)]);
    let cell = serdata_from_decoded(&long(17), SDK_DATA, value);
    let digest = md5::compute((0u8..17).fold(vec![0u8, 0, 0, 0], |mut all, b| {
        all.push(b);
        all
    }));
    assert_eq!(token(&cell), digest.0);
}

#[test]
fn a_cell_from_a_sample_shares_the_value() {
    let value = Arc::new(point(1, 2.0, 3.0));
    let sample = Sample::from(value.clone());
    let cell = serdata_from_sample(SDK_DATA, &sample).unwrap();
    match cell.sample() {
        SampleData::SDKData(held) => assert!(Arc::ptr_eq(held, &value)),
        _ => panic!("the cell holds no value"),
    }
    assert_eq!(cell.hash(), 0);
    assert!(matches!(cell.key_hash(), KeyHash::Absent));
    assert!(serdata_from_sample(SDK_KEY, &sample).is_none());
    assert!(serdata_from_sample(SDK_EMPTY, &sample).is_none());
    assert!(serdata_from_sample(SDK_DATA, &Sample::default()).is_none());
    let mut loaned = Sample::default();
    loaned.set_loaned(ChunkId(7));
    assert!(serdata_from_sample(SDK_DATA, &loaned).is_none());
}

#[test]
fn the_size_of_a_cell_is_the_length_of_its_encoding() {
    let value = point(1, 2.0, 3.0);
    let mut cell = serdata_from_decoded(&point_type(), SDK_DATA, value.clone());
    assert_eq!(cell.serialized_size(), None);
    assert_eq!(get_size(&mut cell) as usize, encode(&value).unwrap().len());
    assert_eq!(cell.serialized_size(), Some(28));
    let named = Value::Tuple(vec![Value::from_str("abc"), Value::from_u8(1)]);
    let mut cell = serdata_from_decoded(&named_type(), SDK_DATA, named.clone());
    assert_eq!(get_size(&mut cell) as usize, encode(&named).unwrap().len());
    assert_eq!(get_size(&mut SerData::new(SDK_DATA)), 0);
    let mut lent = from_iox_buffer(Some(&point_type()), SDK_DATA, None, ChunkId(1), &[0; 16]).unwrap();
    assert_eq!(get_size(&mut lent), 0);
}

#[test]
fn the_hashes_of_a_key_come_with_the_value() {
    let sertype = named_type();
    let value = Value::Tuple(vec![Value::from_str("abc"), Value::from_u8(1)]);
    let (hash, key_hash) = key_hashes(&sertype, &value).unwrap();
    let key_cdr = vec![0u8, 0, 0, 0, 0, 0, 0, 4, b'a', b'b', b'c', 0];
    assert_eq!(hash, murmur3::murmur3_32(&mut std::io::Cursor::new(&key_cdr), 0).unwrap());
    let mut out = [0u8; 16];
    get_keyhash(&key_hash, &mut out);
    assert_eq!(out, md5::compute(&key_cdr).0);
    let plain = SerType::new(String::from("Plain"), Shape::Scalar(Prim::U8), true, 1).unwrap();
    assert!(key_hashes(&plain, &Value::from_u8(1)).is_none());
    let cell = serdata_from_parts(SDK_DATA, value.clone(), Some((hash, key_hash)));
    assert_eq!(cell.hash(), hash);
    assert_eq!(token(&cell), out);
    let bare = serdata_from_parts(SDK_DATA, value, None);
    assert_eq!(bare.hash(), 0);
    assert!(matches!(bare.key_hash(), KeyHash::Absent));
}

#[test]
fn a_cell_writes_its_bytes_into_a_buffer() {
    let value = point(1, 2.0, 3.0);
    let bytes = encode(&value).unwrap();
    let cell = serdata_from_decoded(&point_type(), SDK_DATA, value);
    let mut buf = vec![0xffu8; 40];
    assert_eq!(serdata_to_ser(&cell, 30, 5, &mut buf, None), Ok(28));
    assert_eq!(buf[..5], [0xff; 5]);
    assert_eq!(buf[5..33], bytes[..]);
    assert_eq!(buf[33..], [0xff; 7]);

    let mut buf = vec![0xffu8; 40];
    assert_eq!(serdata_to_ser(&cell, 27, 0, &mut buf, None), Err(SerError::Encode(EncodeError::SizeLimit)));
    assert_eq!(serdata_to_ser(&cell, 28, 13, &mut buf, None), Err(SerError::NoRoom));
    assert_eq!(serdata_to_ser(&cell, usize::MAX, 1, &mut buf, None), Err(SerError::NoRoom));
    assert_eq!(serdata_to_ser(&cell, 0, 40, &mut buf, None), Ok(0));
    assert_eq!(serdata_to_ser(&SerData::new(SDK_DATA), 0, 0, &mut buf, None), Ok(0));
    assert_eq!(serdata_to_ser(&SerData::new(SDK_DATA), 1, 0, &mut buf, None), Err(SerError::Uninitialized));
    assert_eq!(buf, vec![0xffu8; 40]);

    let key_only = serdata_from_keyhash(&point_type(), &[7; 16]).unwrap();
    assert_eq!(serdata_to_ser(&key_only, 6, 1, &mut buf, None), Ok(6));
    assert_eq!(buf[..8], [0xff, 0, 0, 0, 0, 7, 7, 0xff]);
    assert_eq!(serdata_to_ser(&key_only, 21, 0, &mut buf, None), Err(SerError::NoRoom));
    assert_eq!(serdata_to_ser(&serdata_to_untyped(&SerData::new(SDK_DATA)), 5, 0, &mut buf, None), Ok(0));

    let lent = from_iox_buffer(Some(&point_type()), SDK_DATA, None, ChunkId(1), &[0; 16]).unwrap();
    assert_eq!(serdata_to_ser(&lent, 28, 0, &mut buf, None), Err(SerError::NotReadable));
    assert_eq!(serdata_to_ser(&lent, 28, 0, &mut buf, Some(&point(1, 2.0, 3.0))), Ok(28));
    assert_eq!(buf[..28], bytes[..]);
}

#[test]
fn a_view_of_a_cell_adds_an_owner() {
    let value = Value::Tuple(vec![Value::from_str("abc"), Value::from_u8(1)]);
    let bytes = encode(&value).unwrap();
    assert_eq!(bytes.len(), 13);
    let mut cell = serdata_from_decoded(&named_type(), SDK_DATA, value);
    let view = serdata_to_ser_ref(&mut cell, 0, 16, None).unwrap();
    assert_eq!(view, SerRef { key: false, offset: 0, len: 16 });
    assert_eq!(cell.refc(), 2);
    let mut padded = bytes.clone();
    padded.extend_from_slice(&[0, 0, 0]);
    assert_eq!(cell.cdr().unwrap(), &padded);
    assert_eq!(cell.bytes_of(&view).unwrap(), &padded[..]);
    let part = serdata_to_ser_ref(&mut cell, 4, 8, None).unwrap();
    assert_eq!(cell.bytes_of(&part).unwrap(), &bytes[4..12]);
    assert_eq!(cell.refc(), 3);
    assert_eq!(serdata_to_ser_ref(&mut cell, 4, 13, None), None);
    assert_eq!(serdata_to_ser_ref(&mut cell, usize::MAX, 2, None), None);
    assert_eq!(cell.refc(), 3);
    assert_eq!(serdata_to_ser_unref(&mut cell), Ok(false));
    assert_eq!(serdata_to_ser_unref(&mut cell), Ok(false));
    assert_eq!(cell.refc(), 1);
    assert_eq!(serdata_removeref(&mut cell), Ok(true));
    assert_eq!(serdata_removeref(&mut cell), Err(RefError::NoOwner));
    assert_eq!(serdata_addref(&mut cell), Ok(()));
    assert_eq!(cell.refc(), 1);

    let mut empty = SerData::new(SDK_DATA);
    assert_eq!(serdata_to_ser_ref(&mut empty, 0, 0, None), None);
    assert_eq!(empty.refc(), 1);

    let mut key_only = serdata_from_keyhash(&point_type(), &[7; 16]).unwrap();
    let view = serdata_to_ser_ref(&mut key_only, 3, 1, None).unwrap();
    assert_eq!(view, SerRef { key: true, offset: 0, len: 20 });
    assert_eq!(key_only.bytes_of(&view).unwrap().len(), 20);
    assert_eq!(key_only.refc(), 2);

    let mut lent = from_iox_buffer(Some(&point_type()), SDK_DATA, None, ChunkId(1), &[0; 16]).unwrap();
    assert_eq!(serdata_to_ser_ref(&mut lent, 0, 28, None), None);
    assert_eq!(serdata_to_ser_ref(&mut lent, 0, 28, Some(&point(1, 2.0, 3.0))).unwrap().len, 28);
    assert_eq!(serialize_type(&point(1, 2.0, 3.0), Some(28)), encode(&point(1, 2.0, 3.0)).map_err(|_| ()));
    assert_eq!(serialize_type(&point(1, 2.0, 3.0), None).unwrap().len(), 28);
}

#[test]
fn a_slot_refers_to_the_value_of_a_cell() {
    let sertype = point_type();
    let value = point(5, 1.0, 2.0);
    let mut cell = serdata_from_decoded(&sertype, SDK_DATA, value.clone());
    let mut slot = Sample::default();
    assert_eq!(serdata_to_sample(&mut cell, &sertype, None, &mut slot), false);
    assert_eq!(slot.try_deref(), Some(&value));
    assert!(slot.get_sample().is_none());
    assert!(slot.has_serdata());
    assert_eq!(cell.refc(), 2);
    let mut other = Sample::default();
    assert_eq!(serdata_to_sample(&mut cell, &sertype, None, &mut other), false);
    assert_eq!(cell.refc(), 3);
    assert_eq!(sample_release(&mut other, &mut cell), Ok(false));
    assert_eq!(sample_release(&mut slot, &mut cell), Ok(false));
    assert_eq!(cell.refc(), 1);
    assert!(!slot.has_serdata() && slot.try_deref().is_none());

    let mut empty = SerData::new(SDK_DATA);
    let mut slot = Sample::default();
    assert_eq!(serdata_to_sample(&mut empty, &sertype, None, &mut slot), true);
    assert_eq!(slot.try_deref(), None);
    assert!(!slot.has_serdata());
    assert_eq!(empty.refc(), 1);
    let mut key_only = serdata_from_keyhash(&sertype, &[7; 16]).unwrap();
    assert_eq!(serdata_to_sample(&mut key_only, &sertype, None, &mut slot), true);
    assert_eq!(slot.try_deref(), None);
    assert!(!slot.has_serdata());
    assert_eq!(key_only.refc(), 1);
}

#[test]
fn a_stored_encoding_is_that_of_the_value_held() {
    let sertype = point_type();
    let value = point(5, 1.0, 2.0);
    let mut cell = serdata_from_decoded(&sertype, SDK_DATA, value.clone());
    assert_eq!(cell.cdr(), None);
    serdata_to_ser_ref(&mut cell, 0, 28, None).unwrap();
    assert_eq!(cell.cdr(), Some(&encode(&value).unwrap()));

    let other = point(6, 3.0, 4.0);
    let mut bytes = encode(&other).unwrap();
    bytes.extend_from_slice(&[0; 4]);
    let mut cell =
        from_iox_buffer(Some(&sertype), SDK_DATA, Some(SubscriberId(3)), ChunkId(9), &[4; 16]).unwrap();
    serdata_to_ser_ref(&mut cell, 0, 28, Some(&value)).unwrap();
    assert_eq!(cell.cdr(), Some(&encode(&value).unwrap()));
    let chunk = Chunk { shm_data_state: IOX_CHUNK_CONTAINS_SERIALIZED_DATA, data_size: 28, data: &bytes };
    let mut slot = Sample::default();
    assert_eq!(serdata_to_sample(&mut cell, &sertype, Some(&chunk), &mut slot), false);
    assert_eq!(decoded(&cell), Some(other.clone()));
    assert_eq!(cell.cdr(), None);
    assert_eq!(cell.refc(), 3);
    let view = serdata_to_ser_ref(&mut cell, 0, 28, None).unwrap();
    assert_eq!(cell.bytes_of(&view), Some(&encode(&other).unwrap()[..]));
    assert_eq!(cell.cdr(), Some(&encode(&other).unwrap()));
    assert_eq!(get_size(&mut cell), 28);
    assert_eq!(cell.serialized_size(), Some(28));

    let mut again = encode(&value).unwrap();
    again.extend_from_slice(&[0; 4]);
    let chunk = Chunk { shm_data_state: IOX_CHUNK_CONTAINS_SERIALIZED_DATA, data_size: 28, data: &again };
    assert_eq!(sample_release(&mut slot, &mut cell), Ok(false));
    assert_eq!(serdata_to_sample(&mut cell, &sertype, Some(&chunk), &mut slot), false);
    assert_eq!(decoded(&cell), Some(value.clone()));
    assert_eq!(cell.cdr(), None);
    assert_eq!(cell.serialized_size(), None);
    let view = serdata_to_ser_ref(&mut cell, 0, 28, None).unwrap();
    assert_eq!(cell.bytes_of(&view), Some(&encode(&value).unwrap()[..]));
}

#[test]
fn a_cell_learns_from_its_chunk_what_it_holds() {
    let sertype = point_type();
    let value = point(5, 1.0, 2.0);
    let mut bytes = encode(&value).unwrap();
    bytes.extend_from_slice(&[0xaa; 4]);
    let sub = Some(SubscriberId(3));

    let mut cell = from_iox_buffer(Some(&sertype), SDK_DATA, sub, ChunkId(9), &[4; 16]).unwrap();
    assert_eq!(token(&cell), [4; 16]);
    assert_eq!(cell.key_hash().key_length(), 16);
    let chunk = Chunk { shm_data_state: IOX_CHUNK_CONTAINS_SERIALIZED_DATA, data_size: 28, data: &bytes };
    let mut slot = Sample::default();
    assert_eq!(serdata_to_sample(&mut cell, &sertype, Some(&chunk), &mut slot), false);
    assert_eq!(cell.refc(), 2);
    assert_eq!(decoded(&cell), Some(value.clone()));
    assert_eq!(slot.try_deref(), Some(&value));
    match slot.get_sample() {
        Some(SampleStorage::Owned(held)) => assert_eq!(*held, value),
        _ => panic!("the slot holds no value"),
    }
    assert_eq!(token(&cell), [0, 0, 0, 5, 0, 0, 0, 0, 0, 0, 0, 0, 0, 0, 0, 0]);
    assert_eq!(cell.iox_chunk(), Some(ChunkId(9)));

    let mut cell = from_iox_buffer(Some(&sertype), SDK_DATA, sub, ChunkId(9), &[4; 16]).unwrap();
    let raw = Chunk { shm_data_state: IOX_CHUNK_CONTAINS_RAW_DATA, data_size: 24, data: &[] };
    let mut slot = Sample::default();
    assert_eq!(serdata_to_sample(&mut cell, &sertype, Some(&raw), &mut slot), false);
    assert_eq!(cell.refc(), 2);
    assert!(matches!(cell.sample(), SampleData::SHMData(ChunkId(9))));
    assert_eq!(slot.try_deref(), None);
    assert_eq!(slot.loaned_chunk(), Some(ChunkId(9)));

    let wrong_size = Chunk { shm_data_state: IOX_CHUNK_CONTAINS_RAW_DATA, data_size: 23, data: &[] };
    let too_short = Chunk { shm_data_state: IOX_CHUNK_CONTAINS_SERIALIZED_DATA, data_size: 33, data: &bytes };
    let truncated = Chunk { shm_data_state: IOX_CHUNK_CONTAINS_SERIALIZED_DATA, data_size: 27, data: &bytes };
    for bad in [Some(&wrong_size), Some(&too_short), Some(&truncated), None] {
        let mut cell = from_iox_buffer(Some(&sertype), SDK_DATA, sub, ChunkId(9), &[4; 16]).unwrap();
        let mut slot = Sample::default();
        assert_eq!(serdata_to_sample(&mut cell, &sertype, bad, &mut slot), true);
        assert_eq!(cell.refc(), 1);
        assert!(!slot.has_serdata());
        assert!(matches!(cell.sample(), SampleData::SHMData(ChunkId(9))));
        assert_eq!(token(&cell), [4; 16]);
        assert_eq!(slot.loaned_chunk(), None);
    }

    let mut cell = from_iox_buffer(Some(&sertype), SDK_KEY, sub, ChunkId(9), &[4; 16]).unwrap();
    let key_chunk = Chunk {
        shm_data_state: IOX_CHUNK_CONTAINS_SERIALIZED_DATA,
        data_size: 8,
        data: &[0, 0, 0, 0, 0, 0, 0, 6],
    };
    let mut slot = Sample::default();
    assert_eq!(serdata_to_sample(&mut cell, &sertype, Some(&key_chunk), &mut slot), true);
    assert_eq!(cell.refc(), 1);
    assert!(matches!(cell.sample(), SampleData::SDKKey));
    assert_eq!(token(&cell), [0, 0, 0, 6, 0, 0, 0, 0, 0, 0, 0, 0, 0, 0, 0, 0]);
    assert!(from_iox_buffer(None, SDK_DATA, sub, ChunkId(9), &[4; 16]).is_none());
}

#[test]
fn an_untyped_cell_keeps_the_hashes_alone() {
    let sertype = point_type();
    let cell = serdata_from_decoded(&sertype, SDK_DATA, point(5, 1.0, 2.0));
    let untyped = serdata_to_untyped(&cell);
    assert!(!untyped.is_typed());
    assert_eq!(untyped.kind(), SDK_KEY);
    assert!(matches!(untyped.sample(), SampleData::SDKKey));
    assert_eq!(untyped.hash(), cell.hash());
    assert_eq!(token(&untyped), token(&cell));
    assert_eq!(untyped.refc(), 1);
    assert!(eqkey(&cell, &untyped));
    assert!(!eqkey(&cell, &serdata_from_decoded(&sertype, SDK_DATA, point(6, 1.0, 2.0))));
    assert!(eqkey(&cell, &serdata_from_decoded(&sertype, SDK_DATA, point(5, 9.0, 9.0))));

    let mut slot = Sample::from(Arc::new(point(1, 1.0, 1.0)));
    assert!(untyped_to_sample(Some(&mut slot)));
    assert!(slot.get_sample().is_none() && slot.try_deref().is_none());
    assert!(!untyped_to_sample(None));
    let mut held = serdata_from_decoded(&sertype, SDK_DATA, point(5, 1.0, 2.0));
    assert_eq!(sample_set_serdata(&mut slot, &mut held), Ok(()));
    assert!(untyped_to_sample(Some(&mut slot)));
    assert!(slot.has_serdata());
    assert_eq!(held.refc(), 2);
}

#[test]
fn a_copy_of_a_cell_is_one_more_owner() {
    let sertype = point_type();
    let mut cell = serdata_from_decoded(&sertype, SDK_DATA, point(5, 1.0, 2.0));
    serdata_to_ser_ref(&mut cell, 0, 28, None).unwrap();
    let copy = cell.clone();
    assert_eq!(copy.refc(), 3);
    assert_eq!(copy.cdr(), cell.cdr());
    assert_eq!(decoded(&copy), decoded(&cell));
    assert_eq!(token(&copy), token(&cell));
    match (copy.sample(), cell.sample()) {
        (SampleData::SDKData(a), SampleData::SDKData(b)) => assert!(Arc::ptr_eq(a, b)),
        _ => panic!("a cell holds no value"),
    }
}

#[test]
fn ending_a_cell_gives_its_chunk_back_to_the_subscriber() {
    let sertype = point_type();
    let cell = from_iox_buffer(Some(&sertype), SDK_DATA, Some(SubscriberId(3)), ChunkId(9), &[4; 16]).unwrap();
    assert_eq!(cell.iox_subscriber(), Some(SubscriberId(3)));
    assert_eq!(free_serdata(cell), Some(ChunkRelease { subscriber: SubscriberId(3), chunk: Some(ChunkId(9)) }));
    let lent = from_iox_buffer(Some(&sertype), SDK_DATA, None, ChunkId(9), &[4; 16]).unwrap();
    assert_eq!(free_serdata(lent), None);
    assert_eq!(free_serdata(serdata_from_decoded(&sertype, SDK_DATA, point(5, 1.0, 2.0))), None);
}
