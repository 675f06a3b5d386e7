use std::collections::BTreeMap;

use dozer_core::checkpoint::{
    processor_key, CheckpointFactory, CheckpointWriter, ExecutionError, OptionCheckpoint,
    RecoveryState,
};
use dozer_core::field::Field;
use dozer_core::node::{NodeHandle, OpIdentifier, SourceStates};
use dozer_core::record_store::{DeserializeError, ProcessorRecordStore};
use dozer_core::slice::{ReadCheckpointError, UploadCommand};

/// An object store in memory: an object becomes visible when its upload
/// completes.
#[derive(Default)]
struct MemoryStorage {
    objects: BTreeMap<String, Vec<u8>>,
    pending: BTreeMap<String, Vec<u8>>,
}

impl MemoryStorage {
    fn apply(&mut self, commands: Vec<UploadCommand>) {
        for command in commands {
            match command {
                UploadCommand::CreateUpload(key) => {
                    self.pending.insert(key, Vec::new());
                }
                UploadCommand::UploadChunk(key, bytes) => {
                    self.pending.get_mut(&key).unwrap().extend_from_slice(&bytes);
                }
                UploadCommand::CompleteUpload(key) => {
                    let data = self.pending.remove(&key).unwrap();
                    self.objects.insert(key, data);
                }
            }
        }
    }

    /// Lists the keys under `prefix` in pages of `page` keys.
    fn pages(&self, prefix: &str, page: usize) -> Vec<(Vec<String>, Vec<Vec<u8>>)> {
        let keys: Vec<String> = self
            .objects
            .keys()
            .filter(|k| k.starts_with(prefix))
            .cloned()
            .collect();
        let mut pages = Vec::new();
        for chunk in keys.chunks(page) {
            let objects = chunk.iter().map(|k| self.objects[k].clone()).collect();
            pages.push((chunk.to_vec(), objects));
        }
        if pages.is_empty() {
            pages.push((Vec::new(), Vec::new()));
        }
        pages
    }
}

fn recover(
    storage: &MemoryStorage,
    prefix: &str,
    page: usize,
) -> Result<(ProcessorRecordStore, OptionCheckpoint), ExecutionError> {
    let mut state = RecoveryState::new(prefix.to_string());
    let list_prefix = state.list_prefix().to_string();
    for (keys, objects) in storage.pages(&list_prefix, page) {
        state.apply_page(&keys, &objects)?;
    }
    Ok(state.finish())
}

fn states(ns: Option<u16>, id: &str, txid: u64, seq: u64) -> SourceStates {
    let mut s = SourceStates::new();
    s.insert(NodeHandle::new(ns, id.to_string()), OpIdentifier::new(txid, seq));
    s
}

fn commit(
    storage: &mut MemoryStorage,
    factory: &mut CheckpointFactory,
    epoch_id: u64,
    source_states: SourceStates,
) {
    let writer = CheckpointWriter::new(factory, epoch_id, source_states);
    let commands = writer.commit(factory);
    storage.apply(commands);
}

fn open_factory(storage: &MemoryStorage, prefix: &str) -> (CheckpointFactory, OptionCheckpoint) {
    let (store, checkpoint) = recover(storage, prefix, 1000).unwrap();
    (CheckpointFactory::new(prefix.to_string(), store), checkpoint)
}

#[test]
fn checkpoint_writer_should_write_records() {
    let mut storage = MemoryStorage::default();
    let (mut factory, checkpoint) = open_factory(&storage, "checkpoints");
    assert_eq!(checkpoint.num_slices(), 0);
    assert_eq!(checkpoint.next_epoch_id(), 0);
    factory.create_ref(&vec![Field::Int(0)]);
    commit(&mut storage, &mut factory, 42, states(Some(1), "id", 1, 1));

    let (factory, checkpoint) = open_factory(&storage, "checkpoints");
    assert_eq!(checkpoint.num_slices(), 1);
    assert_eq!(checkpoint.epoch_id(), Some(42));
    assert_eq!(
        checkpoint.get_source_state(&NodeHandle::new(Some(1), "id".to_string())),
        Some(OpIdentifier::new(1, 1))
    );
    assert_eq!(factory.record_store().num_records(), 1);
    assert_eq!(factory.record_store().get(0), &vec![Field::Int(0)]);
}

#[test]
fn second_epoch_appends_to_the_record_store() {
    let mut storage = MemoryStorage::default();
    let (mut factory, _) = open_factory(&storage, "p");
    for v in ["a", "b", "c"] {
        factory.create_ref(&vec![Field::String(v.to_string())]);
    }
    commit(&mut storage, &mut factory, 7, states(None, "src", 10, 0));

    let (mut factory, checkpoint) = open_factory(&storage, "p");
    assert_eq!(checkpoint.next_epoch_id(), 8);
    assert_eq!(factory.create_ref(&vec![Field::String("d".to_string())]), 3);
    commit(&mut storage, &mut factory, 8, states(None, "src", 11, 2));

    let (factory, checkpoint) = open_factory(&storage, "p");
    assert_eq!(checkpoint.num_slices(), 2);
    assert_eq!(checkpoint.epoch_id(), Some(8));
    assert_eq!(
        checkpoint.get_source_state(&NodeHandle::new(None, "src".to_string())),
        Some(OpIdentifier::new(11, 2))
    );
    let store = factory.record_store();
    assert_eq!(store.num_records(), 4);
    for (i, v) in ["a", "b", "c", "d"].iter().enumerate() {
        assert_eq!(store.get(i), &vec![Field::String(v.to_string())]);
    }
}

#[test]
fn recovery_over_three_epochs_in_small_pages() {
    let mut storage = MemoryStorage::default();
    let (mut factory, _) = open_factory(&storage, "p");
    for epoch in 1..=3u64 {
        factory.create_ref(&vec![Field::UInt(epoch), Field::Null]);
        commit(&mut storage, &mut factory, epoch, states(Some(2), "s", epoch, 0));
    }
    let (store, checkpoint) = recover(&storage, "p", 2).unwrap();
    assert_eq!(checkpoint.num_slices(), 3);
    assert_eq!(checkpoint.next_epoch_id(), 4);
    assert_eq!(store.num_records(), 3);
    for i in 0..3usize {
        assert_eq!(store.get(i), &vec![Field::UInt(i as u64 + 1), Field::Null]);
    }
    let key = checkpoint
        .processor_data_key(&NodeHandle::new(Some(2), "s".to_string()))
        .unwrap();
    assert_eq!(key, "p/00000000000000000003/2-s");
}

#[test]
fn recovery_fails_on_a_short_slice() {
    let mut storage = MemoryStorage::default();
    let mut data = 999u64.to_le_bytes().to_vec();
    data.extend_from_slice(&[0u8; 10]);
    storage
        .objects
        .insert("p/record_store/00000000000000000001".to_string(), data);
    match recover(&storage, "p", 10) {
        Err(ExecutionError::ReadCheckpoint(e)) => assert_eq!(
            e,
            ReadCheckpointError::NotEnoughData {
                expected: 999,
                remaining: 10
            }
        ),
        other => panic!("unexpected {:?}", other.map(|_| ())),
    }
}

#[test]
fn recovery_fails_on_a_corrupt_earlier_slice() {
    let mut storage = MemoryStorage::default();
    let (mut factory, _) = open_factory(&storage, "p");
    factory.create_ref(&vec![Field::Int(-5)]);
    commit(&mut storage, &mut factory, 1, states(None, "s", 1, 0));
    factory.create_ref(&vec![Field::Int(6)]);
    commit(&mut storage, &mut factory, 2, states(None, "s", 2, 0));
    let first = storage
        .objects
        .get_mut("p/record_store/00000000000000000001")
        .unwrap();
    let n = first.len();
    first.truncate(n - 3);
    match recover(&storage, "p", 10) {
        Err(ExecutionError::Deserialize(e)) => assert_eq!(e, DeserializeError::MalformedRecords),
        other => panic!("unexpected {:?}", other.map(|_| ())),
    }
}

#[test]
fn recovery_rejects_an_unrecognized_key() {
    let mut storage = MemoryStorage::default();
    storage
        .objects
        .insert("p/record_store/latest".to_string(), vec![]);
    match recover(&storage, "p", 10) {
        Err(ExecutionError::UnrecognizedCheckpoint(key)) => {
            assert_eq!(key, "p/record_store/latest")
        }
        other => panic!("unexpected {:?}", other.map(|_| ())),
    }
}

#[test]
fn unfinished_upload_is_not_recovered() {
    let mut storage = MemoryStorage::default();
    let (mut factory, _) = open_factory(&storage, "p");
    factory.create_ref(&vec![Field::Boolean(true)]);
    commit(&mut storage, &mut factory, 1, states(None, "s", 1, 0));
    factory.create_ref(&vec![Field::Boolean(false)]);
    let writer = CheckpointWriter::new(&factory, 2, states(None, "s", 2, 0));
    let mut commands = writer.commit(&mut factory);
    assert!(matches!(commands.pop(), Some(UploadCommand::CompleteUpload(_))));
    storage.apply(commands);
    let (store, checkpoint) = recover(&storage, "p", 10).unwrap();
    assert_eq!(checkpoint.epoch_id(), Some(1));
    assert_eq!(store.num_records(), 1);
    assert_eq!(store.get(0), &vec![Field::Boolean(true)]);
}

#[test]
fn slice_commands_carry_header_states_and_records() {
    let storage = MemoryStorage::default();
    let (mut factory, _) = open_factory(&storage, "root");
    factory.create_ref(&vec![Field::Binary(vec![1, 2, 3])]);
    let writer = CheckpointWriter::new(&factory, 5, states(None, "x", 3, 4));
    assert_eq!(writer.processor_prefix(), "root/00000000000000000005");
    assert_eq!(
        writer.processor_object_key(&NodeHandle::new(Some(12), "proc".to_string())),
        "root/00000000000000000005/12-proc"
    );
    let commands = writer.commit(&mut factory);
    assert_eq!(commands.len(), 5);
    let key = "root/record_store/00000000000000000005";
    match (&commands[0], &commands[1], &commands[2], &commands[3], &commands[4]) {
        (
            UploadCommand::CreateUpload(k0),
            UploadCommand::UploadChunk(k1, header),
            UploadCommand::UploadChunk(k2, s),
            UploadCommand::UploadChunk(k3, _),
            UploadCommand::CompleteUpload(k4),
        ) => {
            for k in [k0, k1, k2, k3, k4] {
                assert_eq!(k, key);
            }
            assert_eq!(header, &(s.len() as u64).to_le_bytes().to_vec());
        }
        _ => panic!("unexpected commands"),
    }
    // Nothing new since the commit: the next slice holds no records.
    let writer = CheckpointWriter::new(&factory, 6, SourceStates::new());
    let commands = writer.commit(&mut factory);
    match &commands[3] {
        UploadCommand::UploadChunk(_, data) => assert!(data.is_empty()),
        _ => panic!("unexpected command"),
    }
}

#[test]
fn processor_key_joins_prefix_and_handle() {
    assert_eq!(
        processor_key("a/b", &NodeHandle::new(None, "n".to_string())),
        "a/b/n"
    );
    assert_eq!(
        processor_key("a/b/", &NodeHandle::new(Some(0), "n".to_string())),
        "a/b/0-n"
    );
}

#[test]
fn empty_option_checkpoint() {
    let c = OptionCheckpoint::default();
    assert_eq!(c.num_slices(), 0);
    assert_eq!(c.next_epoch_id(), 0);
    assert_eq!(c.epoch_id(), None);
    assert_eq!(
        c.get_source_state(&NodeHandle::new(None, "x".to_string())),
        None
    );
    assert_eq!(
        c.processor_data_key(&NodeHandle::new(None, "x".to_string())),
        None
    );
}
