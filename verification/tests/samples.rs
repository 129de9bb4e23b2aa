use cyclonedds_rs::sample::{
    free_samples, realloc_samples, ChunkId, Sample, SampleBuffer, SampleData, SampleInfo, SampleStorage,
    DDS_FREE_ALL_BIT, DDS_FREE_CONTENTS_BIT, DDS_FREE_KEY_BIT,
};
use cyclonedds_rs::serdata::{
    from_iox_buffer, sample_release, sample_set_serdata, serdata_from_parts, serdata_to_untyped, RefError,
    SerData, SDK_DATA,
};
use cyclonedds_rs::sertype::SerType;
use cyclonedds_rs::value::{Prim, Shape, Value};
use std::sync::Arc;

fn owned(x: u32) -> Sample {
    Sample::from(Arc::new(Value::from_u32(x)))
}

fn held(sample: &Sample) -> Option<Value> {
    match sample.get_sample() {
        Some(SampleStorage::Owned(v)) => Some((*v).clone()),
        _ => None,
    }
}

fn cell_of(x: u32) -> SerData {
    serdata_from_parts(SDK_DATA, Value::from_u32(x), None)
}

fn lent_cell(id: u64) -> SerData {
    let sertype = SerType::new(String::from("Count"), Shape::Scalar(Prim::U32), true, 4).unwrap();
    from_iox_buffer(Some(&sertype), SDK_DATA, None, ChunkId(id), &[0; 16]).unwrap()
}

fn referring_to(cell: &mut SerData) -> Sample {
    let mut slot = Sample::default();
    assert_eq!(sample_set_serdata(&mut slot, cell), Ok(()));
    slot
}

fn is_empty(sample: &Sample) -> bool {
    sample.get_sample().is_none() && sample.try_deref().is_none() && sample.loaned_chunk().is_none()
}

#[test]
fn a_slot_holds_what_it_was_given() {
    let value = Arc::new(Value::from_u32(7));
    let mut slot = Sample::default();
    assert!(is_empty(&slot));
    assert!(slot.get().is_none());
    slot.set(value.clone());
    assert!(Arc::ptr_eq(&slot.get().unwrap(), &value));
    assert_eq!(held(&slot), Some(Value::from_u32(7)));
    assert_eq!(slot.try_deref(), None);
    slot.set_loaned(ChunkId(3));
    assert!(matches!(slot.get_sample(), Some(SampleStorage::Loaned(ChunkId(3)))));
    assert!(slot.get().is_none());
    assert!(!slot.has_serdata());
    let mut cell = cell_of(7);
    assert_eq!(sample_set_serdata(&mut slot, &mut cell), Ok(()));
    assert!(slot.has_serdata());
    assert_eq!(cell.refc(), 2);
    assert_eq!(slot.try_deref(), Some(&Value::from_u32(7)));
    assert!(matches!(slot.get_sample(), Some(SampleStorage::Loaned(ChunkId(3)))));
    let mut lent = lent_cell(4);
    assert_eq!(sample_release(&mut slot, &mut cell), Ok(false));
    assert_eq!(cell.refc(), 1);
    assert_eq!(sample_set_serdata(&mut slot, &mut lent), Ok(()));
    assert_eq!(lent.refc(), 2);
    assert_eq!(slot.try_deref(), None);
    assert_eq!(slot.loaned_chunk(), Some(ChunkId(4)));
    assert_eq!(sample_release(&mut slot, &mut lent), Ok(false));
    let mut key_only = serdata_to_untyped(&cell);
    assert_eq!(sample_set_serdata(&mut slot, &mut key_only), Ok(()));
    assert_eq!(slot.try_deref(), None);
    slot.clear();
    assert!(slot.get_sample().is_none());
    assert!(slot.has_serdata());
    assert_eq!(sample_release(&mut slot, &mut key_only), Ok(false));
    assert!(is_empty(&slot) && !slot.has_serdata());
    let copy = SampleData::SDKData(value.clone()).clone();
    match copy {
        SampleData::SDKData(shared) => assert!(Arc::ptr_eq(&shared, &value)),
        _ => panic!("the copy holds no value"),
    }
    assert!(matches!(SampleData::default(), SampleData::Uninitialized));
}

#[test]
fn growing_keeps_the_slots_and_adds_empty_ones() {
    let old = vec![owned(1), owned(2), owned(3)];
    let (new, dropped) = realloc_samples(old, 5);
    assert_eq!(new.len(), 5);
    assert_eq!(held(&new[0]), Some(Value::from_u32(1)));
    assert_eq!(held(&new[1]), Some(Value::from_u32(2)));
    assert_eq!(held(&new[2]), Some(Value::from_u32(3)));
    assert!(is_empty(&new[3]));
    assert!(is_empty(&new[4]));
    assert!(dropped.is_empty());
}

#[test]
fn shrinking_keeps_the_first_slots_and_hands_the_rest_back() {
    let value = Arc::new(Value::from_u32(3));
    let old = vec![owned(1), owned(2), Sample::from(value.clone())];
    assert_eq!(Arc::strong_count(&value), 2);
    let (new, dropped) = realloc_samples(old, 1);
    assert_eq!(new.len(), 1);
    assert_eq!(held(&new[0]), Some(Value::from_u32(1)));
    assert_eq!(dropped.len(), 2);
    assert_eq!(held(&dropped[0]), Some(Value::from_u32(2)));
    assert_eq!(held(&dropped[1]), Some(Value::from_u32(3)));
    drop(dropped);
    assert_eq!(Arc::strong_count(&value), 1);
}

#[test]
fn the_same_length_and_none_are_no_change() {
    let (new, dropped) = realloc_samples(vec![owned(1), owned(2)], 2);
    assert_eq!(new.len(), 2);
    assert_eq!(held(&new[1]), Some(Value::from_u32(2)));
    assert!(dropped.is_empty());
    let (new, dropped) = realloc_samples(vec![owned(1)], 0);
    assert!(new.is_empty());
    assert_eq!(dropped.len(), 1);
    let (new, dropped) = realloc_samples(Vec::new(), 2);
    assert_eq!(new.len(), 2);
    assert!(is_empty(&new[0]) && is_empty(&new[1]) && dropped.is_empty());
}

#[test]
fn freeing_follows_the_bits_of_the_operation() {
    let value = Arc::new(Value::from_u32(3));
    let mut slots = vec![owned(1), Sample::from(value.clone())];
    assert!(free_samples(&mut slots, DDS_FREE_CONTENTS_BIT));
    assert_eq!(slots.len(), 2);
    assert!(is_empty(&slots[0]) && is_empty(&slots[1]));
    assert_eq!(Arc::strong_count(&value), 1);

    let mut slots = vec![owned(1), Sample::from(value.clone())];
    assert!(free_samples(&mut slots, DDS_FREE_ALL_BIT | DDS_FREE_CONTENTS_BIT));
    assert!(slots.is_empty());
    assert_eq!(Arc::strong_count(&value), 1);

    let mut slots = vec![owned(1)];
    assert!(!free_samples(&mut slots, DDS_FREE_KEY_BIT));
    assert!(!free_samples(&mut slots, 0));
    assert_eq!(held(&slots[0]), Some(Value::from_u32(1)));
}

#[test]
fn a_buffer_has_one_notice_for_each_slot() {
    let mut buffer = SampleBuffer::new(3);
    assert_eq!(buffer.len(), 3);
    for i in 0..3 {
        assert!(!buffer.is_valid_sample(i));
        assert!(is_empty(buffer.get(i)));
    }
    assert!(buffer.iter().is_empty());
    buffer.put(1, referring_to(&mut cell_of(8)), SampleInfo { valid_data: true });
    buffer.put(0, referring_to(&mut lent_cell(1)), SampleInfo { valid_data: true });
    buffer.put(2, referring_to(&mut cell_of(9)), SampleInfo { valid_data: false });
    assert!(buffer.is_valid_sample(0) && buffer.is_valid_sample(1) && !buffer.is_valid_sample(2));
    assert_eq!(buffer.iter(), vec![&Value::from_u32(8), &Value::from_u32(9)]);
    assert_eq!(buffer.get(1).try_deref(), Some(&Value::from_u32(8)));
    assert_eq!(SampleBuffer::new(0).len(), 0);
}

#[test]
fn a_slot_is_an_owner_of_the_cell_that_it_refers_to() {
    let mut cell = cell_of(7);
    assert_eq!(cell.refc(), 1);
    let mut first = referring_to(&mut cell);
    let mut second = referring_to(&mut cell);
    assert_eq!(cell.refc(), 3);
    assert_eq!(first.try_deref(), Some(&Value::from_u32(7)));

    first.clear();
    assert_eq!(cell.refc(), 3);
    assert!(first.has_serdata());
    assert_eq!(sample_release(&mut first, &mut cell), Ok(false));
    assert_eq!(cell.refc(), 2);
    assert!(!first.has_serdata() && first.try_deref().is_none());
    assert_eq!(sample_release(&mut first, &mut cell), Ok(false));
    assert_eq!(cell.refc(), 2);

    let mut kept = Sample::from(Arc::new(Value::from_u32(1)));
    assert_eq!(sample_set_serdata(&mut kept, &mut cell), Ok(()));
    assert_eq!(sample_release(&mut kept, &mut cell), Ok(false));
    assert_eq!(held(&kept), Some(Value::from_u32(1)));
    assert_eq!(sample_release(&mut second, &mut cell), Ok(false));
    assert_eq!(cell.refc(), 1);

    let mut last = referring_to(&mut cell);
    assert_eq!(cyclonedds_rs::serdata::serdata_removeref(&mut cell), Ok(false));
    assert_eq!(sample_release(&mut last, &mut cell), Ok(true));
    assert_eq!(cell.refc(), 0);
    assert!(!last.has_serdata());

    let mut stale = referring_to(&mut cell_of(3));
    assert_eq!(sample_release(&mut stale, &mut cell), Err(RefError::NoOwner));
    assert!(stale.has_serdata());
    assert_eq!(stale.try_deref(), Some(&Value::from_u32(3)));
    assert_eq!(cell.refc(), 0);
}
