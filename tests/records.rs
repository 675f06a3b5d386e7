use dozer_core::field::{decode_records, field_eq, push_record, record_eq, Field};
use dozer_core::node::{NodeHandle, OpIdentifier, SourceStates};
use dozer_core::record_store::{DeserializeError, ProcessorRecordStore};
use dozer_core::slice::{read_record_store_slice_data, ReadCheckpointError};

fn sample() -> Vec<Vec<Field>> {
    vec![
        vec![Field::Int(-1), Field::String("héllo".to_string())],
        vec![Field::UInt(u64::MAX), Field::Boolean(false), Field::Null],
        vec![Field::Binary(vec![0, 255]), Field::String(String::new())],
        vec![],
    ]
}

#[test]
fn interning_returns_existing_indices() {
    let mut store = ProcessorRecordStore::new();
    let a = vec![Field::Int(1)];
    let b = vec![Field::String("x".to_string())];
    assert_eq!(store.create_ref(&a), 0);
    assert_eq!(store.create_ref(&b), 1);
    assert_eq!(store.create_ref(&a), 0);
    assert_eq!(store.create_ref(&b), 1);
    assert_eq!(store.create_ref(&vec![Field::Int(2)]), 2);
    assert_eq!(store.num_records(), 3);
    assert_eq!(store.get(1), &b);
}

#[test]
fn interning_tells_field_kinds_apart() {
    let mut store = ProcessorRecordStore::new();
    assert_eq!(store.create_ref(&vec![Field::Int(1)]), 0);
    assert_eq!(store.create_ref(&vec![Field::UInt(1)]), 1);
    assert_eq!(store.create_ref(&vec![Field::Int(1), Field::Null]), 2);
    assert_eq!(store.create_ref(&vec![Field::Binary(vec![1])]), 3);
    assert_eq!(store.create_ref(&vec![Field::Binary(vec![1])]), 3);
}

#[test]
fn slices_restore_the_store() {
    let mut store = ProcessorRecordStore::new();
    for r in sample() {
        store.create_ref(&r);
    }
    let (first, n1) = store.serialize_slice(0);
    assert_eq!(n1, 4);
    let (again, _) = store.serialize_slice(0);
    assert_eq!(first, again);

    let mut restored = ProcessorRecordStore::new();
    for cut in [(0usize, 1usize), (1, 3), (3, 3), (3, 4)] {
        let mut part = ProcessorRecordStore::new();
        for i in 0..cut.1 {
            part.create_ref(store.get(i));
        }
        let (bytes, n) = part.serialize_slice(cut.0);
        assert_eq!(n, cut.1 - cut.0);
        restored.deserialize_and_extend(&bytes).unwrap();
    }
    assert_eq!(restored.num_records(), 4);
    for (i, r) in sample().iter().enumerate() {
        assert_eq!(restored.get(i), r);
    }
}

#[test]
fn malformed_records_leave_the_store_unchanged() {
    let mut store = ProcessorRecordStore::new();
    store.create_ref(&vec![Field::String("ok".to_string())]);
    let (mut bytes, _) = store.serialize_slice(0);
    let mut target = ProcessorRecordStore::new();
    bytes.push(7);
    assert_eq!(
        target.deserialize_and_extend(&bytes),
        Err(DeserializeError::MalformedRecords)
    );
    assert_eq!(target.num_records(), 0);
}

#[test]
fn invalid_utf8_is_refused() {
    let mut bytes = Vec::new();
    push_record(&mut bytes, &vec![Field::String("ab".to_string())]);
    let n = bytes.len();
    bytes[n - 1] = 0xff;
    assert!(decode_records(&bytes).is_none());
    let mut good = Vec::new();
    push_record(&mut good, &vec![Field::String("ab".to_string())]);
    let decoded = decode_records(&good).unwrap();
    assert_eq!(decoded, vec![vec![Field::String("ab".to_string())]]);
}

#[test]
fn record_encoding_layout() {
    let mut bytes = Vec::new();
    push_record(&mut bytes, &vec![Field::UInt(258), Field::Boolean(true)]);
    let mut expected = 2u64.to_le_bytes().to_vec();
    expected.push(0);
    expected.extend_from_slice(&258u64.to_le_bytes());
    expected.extend_from_slice(&[2, 1]);
    assert_eq!(bytes, expected);
}

#[test]
fn field_and_record_equality() {
    assert!(field_eq(&Field::Null, &Field::Null));
    assert!(!field_eq(&Field::Int(3), &Field::UInt(3)));
    assert!(field_eq(
        &Field::String("a".to_string()),
        &Field::String("a".to_string())
    ));
    assert!(!record_eq(&vec![Field::Int(1)], &vec![Field::Int(1), Field::Int(1)]));
    assert!(record_eq(&vec![Field::Binary(vec![4])], &vec![Field::Binary(vec![4])]));
}

#[test]
fn source_states_round_trip() {
    let mut s = SourceStates::new();
    s.insert(NodeHandle::new(Some(1), "id".to_string()), OpIdentifier::new(1, 1));
    s.insert(NodeHandle::new(None, "other".to_string()), OpIdentifier::new(7, 9));
    s.insert(NodeHandle::new(Some(1), "id".to_string()), OpIdentifier::new(2, 3));
    assert_eq!(s.len(), 2);
    let bytes = s.encode();
    let back = SourceStates::decode(&bytes).unwrap();
    assert_eq!(back.len(), 2);
    assert_eq!(
        back.get(&NodeHandle::new(Some(1), "id".to_string())),
        Some(OpIdentifier::new(2, 3))
    );
    assert_eq!(
        back.get(&NodeHandle::new(None, "other".to_string())),
        Some(OpIdentifier::new(7, 9))
    );
    assert_eq!(back.get(&NodeHandle::new(Some(2), "id".to_string())), None);
}

#[test]
fn slice_data_reads_back() {
    let mut s = SourceStates::new();
    s.insert(NodeHandle::new(None, "a".to_string()), OpIdentifier::new(5, 6));
    let encoded = s.encode();
    let mut object = (encoded.len() as u64).to_le_bytes().to_vec();
    object.extend_from_slice(&encoded);
    object.extend_from_slice(&[9, 8, 7]);
    let (states, rest) = read_record_store_slice_data(&object).unwrap();
    assert_eq!(rest, vec![9, 8, 7]);
    assert_eq!(
        states.get(&NodeHandle::new(None, "a".to_string())),
        Some(OpIdentifier::new(5, 6))
    );
}

#[test]
fn slice_data_errors() {
    assert_eq!(
        read_record_store_slice_data(&[1, 2, 3]).err(),
        Some(ReadCheckpointError::NotEnoughData {
            expected: 8,
            remaining: 3
        })
    );
    let mut object = 999u64.to_le_bytes().to_vec();
    object.extend_from_slice(&[0u8; 10]);
    assert_eq!(
        read_record_store_slice_data(&object).err(),
        Some(ReadCheckpointError::NotEnoughData {
            expected: 999,
            remaining: 10
        })
    );
    let mut object = 1u64.to_le_bytes().to_vec();
    object.push(0);
    assert_eq!(
        read_record_store_slice_data(&object).err(),
        Some(ReadCheckpointError::InvalidSourceStates)
    );
}
