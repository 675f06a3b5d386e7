//! The checkpoint factory, the per-epoch writer, the latest checkpoint, and
//! recovery from the slices found in storage.
use vstd::prelude::*;
use crate::field::{encode_records, Record, RecordValue};
use crate::field::read_records;
use crate::keys::{
    join, lemma_slice_key_epoch, name_under, name_under_dir, parse_u64, parse_u64_of, path_join,
    processor_prefix, processor_prefix_of, record_store_prefix, record_store_prefix_of,
    slice_key, slice_key_of,
};
use crate::slice::{lemma_slice_commands_object, lemma_slice_object_round_trip, uploaded_object};
use crate::node::states_ok;
use crate::node::{encode_states, handle_string, lookup, NodeHandle, NodeKey, OpIdentifier, SourceStates};
use crate::record_store::{intern, DeserializeError, ProcessorRecordStore};
use crate::slice::{
    parse_slice, read_record_store_slice_data, slice_commands, write_record_store_slice_data,
    ReadCheckpointError, UploadCommand,
};

verus! {

/// Why a checkpoint could not be written or restored.
#[derive(Debug)]
pub enum ExecutionError {
    /// A key listed under the record-store prefix names no epoch.
    UnrecognizedCheckpoint(String),
    /// A slice object could not be read.
    ReadCheckpoint(ReadCheckpointError),
    /// The records of a slice object are not well formed.
    Deserialize(DeserializeError),
    /// The upload queue is gone.
    CheckpointWriterThreadPanicked,
}

/// The value of an error.
pub enum ErrorValue {
    UnrecognizedCheckpoint(Seq<char>),
    ReadCheckpoint(ReadCheckpointError),
    Deserialize(DeserializeError),
    CheckpointWriterThreadPanicked,
}

impl View for ExecutionError {
    type V = ErrorValue;

    open spec fn view(&self) -> ErrorValue {
        match self {
            ExecutionError::UnrecognizedCheckpoint(k) => ErrorValue::UnrecognizedCheckpoint(k@),
            ExecutionError::ReadCheckpoint(e) => ErrorValue::ReadCheckpoint(*e),
            ExecutionError::Deserialize(e) => ErrorValue::Deserialize(*e),
            ExecutionError::CheckpointWriterThreadPanicked => ErrorValue::CheckpointWriterThreadPanicked,
        }
    }
}

/// Owns the record store and the commit state: the index of the first
/// record that no committed slice holds yet.
pub struct CheckpointFactory {
    prefix: String,
    record_store: ProcessorRecordStore,
    next_record_index: usize,
}

impl CheckpointFactory {
    pub closed spec fn prefix_view(&self) -> Seq<char> {
        self.prefix@
    }

    pub closed spec fn records(&self) -> Seq<RecordValue> {
        self.record_store@
    }

    /// The index of the first record that no committed slice holds.
    pub closed spec fn committed(&self) -> nat {
        self.next_record_index as nat
    }

    pub closed spec fn wf(&self) -> bool {
        self.next_record_index <= self.record_store@.len()
    }

    /// A factory under `prefix` over a recovered record store: all of its
    /// records are committed already.
    pub fn new(prefix: String, record_store: ProcessorRecordStore) -> (r: Self)
        ensures
            r.wf(),
            r.prefix_view() == prefix@,
            r.records() == record_store@,
            r.committed() == record_store@.len(),
    {
        let n = record_store.num_records();
        CheckpointFactory { prefix, record_store, next_record_index: n }
    }

    pub fn prefix(&self) -> (r: &str)
        ensures
            r@ == self.prefix_view(),
    {
        self.prefix.as_str()
    }

    pub fn record_store(&self) -> (r: &ProcessorRecordStore)
        ensures
            r@ == self.records(),
    {
        &self.record_store
    }

    /// Interns a record into the record store.
    pub fn create_ref(&mut self, record: &Record) -> (r: usize)
        requires
            old(self).wf(),
        ensures
            final(self).wf(),
            (final(self).records(), r as nat) == intern(old(self).records(), record.deep_view()),
            final(self).prefix_view() == old(self).prefix_view(),
            final(self).committed() == old(self).committed(),
    {
        self.record_store.create_ref(record)
    }

    /// Commits the records not yet committed as the slice at `key`: hands
    /// back the commands that upload the slice object, and marks them
    /// committed.
    pub fn write_record_store_slice(&mut self, key: String, source_states: &SourceStates) -> (r: Vec<UploadCommand>)
        requires
            old(self).wf(),
        ensures
            final(self).wf(),
            final(self).records() == old(self).records(),
            final(self).prefix_view() == old(self).prefix_view(),
            final(self).committed() == old(self).records().len(),
            r@.len() == 5,
            forall|i: int| 0 <= i < 5 ==> (#[trigger] r@[i])@ == slice_commands(
                key@,
                encode_states(source_states@),
                encode_records(old(self).records().subrange(old(self).committed() as int, old(self).records().len() as int)),
            )[i],
    {
        let _total = self.record_store.num_records();
        let (data, n) = self.record_store.serialize_slice(self.next_record_index);
        self.next_record_index = self.next_record_index + n;
        write_record_store_slice_data(key, source_states, data)
    }
}

/// The writer of one epoch: the key of its slice, the source states it
/// commits, and the prefix of its processor objects.
pub struct CheckpointWriter {
    record_store_key: String,
    source_states: SourceStates,
    processor_prefix: String,
}

impl CheckpointWriter {
    pub closed spec fn slice_key_view(&self) -> Seq<char> {
        self.record_store_key@
    }

    pub closed spec fn processor_prefix_view(&self) -> Seq<char> {
        self.processor_prefix@
    }

    pub closed spec fn states(&self) -> Seq<(NodeKey, OpIdentifier)> {
        self.source_states@
    }

    /// The writer of epoch `epoch_id` for a factory.
    pub fn new(factory: &CheckpointFactory, epoch_id: u64, source_states: SourceStates) -> (r: Self)
        ensures
            r.slice_key_view() == slice_key_of(factory.prefix_view(), epoch_id),
            r.processor_prefix_view() == processor_prefix_of(factory.prefix_view(), epoch_id),
            r.states() == source_states@,
    {
        let record_store_key = slice_key(factory.prefix(), epoch_id);
        let processor_prefix = processor_prefix(factory.prefix(), epoch_id);
        CheckpointWriter { record_store_key, source_states, processor_prefix }
    }

    pub fn processor_prefix(&self) -> (r: &str)
        ensures
            r@ == self.processor_prefix_view(),
    {
        self.processor_prefix.as_str()
    }

    /// The key of the object that holds the state of processor `node_handle`
    /// in this epoch.
    pub fn processor_object_key(&self, node_handle: &NodeHandle) -> (r: String)
        ensures
            r@ == path_join(self.processor_prefix_view(), handle_string(node_handle@)),
    {
        processor_key(self.processor_prefix.as_str(), node_handle)
    }

    /// Ends the epoch: commits the slice of the records added since the last
    /// commit, with this epoch's source states.
    pub fn commit(self, factory: &mut CheckpointFactory) -> (r: Vec<UploadCommand>)
        requires
            old(factory).wf(),
        ensures
            final(factory).wf(),
            final(factory).records() == old(factory).records(),
            final(factory).prefix_view() == old(factory).prefix_view(),
            final(factory).committed() == old(factory).records().len(),
            r@.len() == 5,
            forall|i: int| 0 <= i < 5 ==> (#[trigger] r@[i])@ == slice_commands(
                self.slice_key_view(),
                encode_states(self.states()),
                encode_records(old(factory).records().subrange(old(factory).committed() as int, old(factory).records().len() as int)),
            )[i],
    {
        factory.write_record_store_slice(self.record_store_key, &self.source_states)
    }
}

/// `processor_prefix/node_handle`.
pub fn processor_key(processor_prefix: &str, node_handle: &NodeHandle) -> (r: String)
    ensures
        r@ == path_join(processor_prefix@, handle_string(node_handle@)),
{
    let name = node_handle.to_key_string();
    join(processor_prefix, name.as_str())
}

/// What a checkpoint holds: how many slices the record store is split
/// into, the last epoch, its source states, and the prefix of its processor
/// objects.
pub struct CheckpointValue {
    pub num_slices: nat,
    pub epoch_id: u64,
    pub states: Seq<(NodeKey, OpIdentifier)>,
    pub processor_prefix: Seq<char>,
}

/// The latest committed checkpoint.
#[derive(Debug)]
pub struct Checkpoint {
    num_slices: usize,
    processor_prefix: String,
    epoch_id: u64,
    source_states: SourceStates,
}

impl View for Checkpoint {
    type V = CheckpointValue;

    closed spec fn view(&self) -> CheckpointValue {
        CheckpointValue {
            num_slices: self.num_slices as nat,
            epoch_id: self.epoch_id,
            states: self.source_states@,
            processor_prefix: self.processor_prefix@,
        }
    }
}

/// The latest committed checkpoint, if a slice was ever committed.
#[derive(Debug)]
pub struct OptionCheckpoint {
    checkpoint: Option<Checkpoint>,
}

impl View for OptionCheckpoint {
    type V = Option<CheckpointValue>;

    closed spec fn view(&self) -> Option<CheckpointValue> {
        match &self.checkpoint {
            Some(c) => Some(c@),
            None => None,
        }
    }
}

impl Default for OptionCheckpoint {
    fn default() -> (r: Self)
        ensures
            r@ is None,
    {
        OptionCheckpoint { checkpoint: None }
    }
}

impl OptionCheckpoint {
    /// The number of slices in storage; `0` without a checkpoint.
    pub fn num_slices(&self) -> (r: usize)
        ensures
            r == match self@ {
                Some(c) => c.num_slices,
                None => 0,
            },
    {
        match &self.checkpoint {
            Some(c) => c.num_slices,
            None => 0,
        }
    }

    /// The epoch of the checkpoint, if there is one.
    pub fn epoch_id(&self) -> (r: Option<u64>)
        ensures
            r == match self@ {
                Some(c) => Some(c.epoch_id),
                None => None::<u64>,
            },
    {
        match &self.checkpoint {
            Some(c) => Some(c.epoch_id),
            None => None,
        }
    }

    /// The epoch to resume with: the one after the checkpoint, `0` without
    /// one.
    pub fn next_epoch_id(&self) -> (r: u64)
        requires
            self@ matches Some(c) ==> c.epoch_id < u64::MAX,
        ensures
            r == match self@ {
                Some(c) => (c.epoch_id + 1) as u64,
                None => 0,
            },
    {
        match &self.checkpoint {
            Some(c) => c.epoch_id + 1,
            None => 0,
        }
    }

    /// The position committed for a source.
    pub fn get_source_state(&self, node_handle: &NodeHandle) -> (r: Option<OpIdentifier>)
        ensures
            r == match self@ {
                Some(c) => lookup(c.states, node_handle@),
                None => None,
            },
    {
        match &self.checkpoint {
            Some(c) => c.source_states.get(node_handle),
            None => None,
        }
    }

    /// The key of the state object of a processor in the checkpoint.
    pub fn processor_data_key(&self, node_handle: &NodeHandle) -> (r: Option<String>)
        ensures
            match self@ {
                Some(c) => r matches Some(k) && k@ == path_join(c.processor_prefix, handle_string(node_handle@)),
                None => r is None,
            },
    {
        match &self.checkpoint {
            Some(c) => Some(processor_key(c.processor_prefix.as_str(), node_handle)),
            None => None,
        }
    }
}

/// The records after reading the slice objects `objects` in order, or the
/// first reason one of them cannot be read.
pub open spec fn apply_slices(records: Seq<RecordValue>, objects: Seq<Seq<u8>>) -> Result<Seq<RecordValue>, ErrorValue>
    decreases objects.len(),
{
    if objects.len() == 0 {
        Ok(records)
    } else {
        match parse_slice(objects[0]) {
            Err(e) => Err(ErrorValue::ReadCheckpoint(e)),
            Ok((_, data)) => match read_records(data) {
                None => Err(ErrorValue::Deserialize(DeserializeError::MalformedRecords)),
                Some(rs) => apply_slices(records + rs, objects.drop_first()),
            },
        }
    }
}

/// The checkpoint after a page of slice keys and their objects: the last
/// key names the epoch, the last object holds its source states, and the
/// page adds its slices to the count.
pub open spec fn page_checkpoint(
    last: Option<CheckpointValue>,
    factory_prefix: Seq<char>,
    keys: Seq<Seq<char>>,
    objects: Seq<Seq<u8>>,
) -> Result<Option<CheckpointValue>, ErrorValue> {
    if keys.len() == 0 {
        Ok(last)
    } else {
        let tail = keys.last();
        match name_under(tail, record_store_prefix_of(factory_prefix)) {
            None => Err(ErrorValue::UnrecognizedCheckpoint(tail)),
            Some(name) => match parse_u64_of(name) {
                None => Err(ErrorValue::UnrecognizedCheckpoint(tail)),
                Some(epoch_id) => match parse_slice(objects.last()) {
                    Err(e) => Err(ErrorValue::ReadCheckpoint(e)),
                    Ok((states, _)) => Ok(
                        Some(
                            CheckpointValue {
                                num_slices: match last {
                                    Some(c) => c.num_slices,
                                    None => 0,
                                } + keys.len(),
                                epoch_id,
                                states,
                                processor_prefix: path_join(factory_prefix, name),
                            },
                        ),
                    ),
                },
            },
        }
    }
}

/// What recovery holds between pages: the records read so far and the
/// latest checkpoint.
pub struct RecoveryValue {
    pub records: Seq<RecordValue>,
    pub last: Option<CheckpointValue>,
}

/// Recovery after one more page of slices, or why it fails.
pub open spec fn recovery_step(
    v: RecoveryValue,
    factory_prefix: Seq<char>,
    keys: Seq<Seq<char>>,
    objects: Seq<Seq<u8>>,
) -> Result<RecoveryValue, ErrorValue> {
    match page_checkpoint(v.last, factory_prefix, keys, objects) {
        Err(e) => Err(e),
        Ok(last) => match apply_slices(v.records, objects) {
            Err(e) => Err(e),
            Ok(records) => Ok(RecoveryValue { records, last }),
        },
    }
}

pub open spec fn key_views(keys: Seq<String>) -> Seq<Seq<char>> {
    Seq::new(keys.len(), |i: int| keys[i]@)
}

pub open spec fn object_views(objects: Seq<Vec<u8>>) -> Seq<Seq<u8>> {
    Seq::new(objects.len(), |i: int| objects[i]@)
}

/// Recovery of the record store and the latest checkpoint from the slices
/// that storage lists under the record-store prefix, page by page.
pub struct RecoveryState {
    factory_prefix: String,
    list_prefix: String,
    record_store: ProcessorRecordStore,
    last: Option<Checkpoint>,
}

impl RecoveryState {
    pub closed spec fn value(&self) -> RecoveryValue {
        RecoveryValue {
            records: self.record_store@,
            last: match &self.last {
                Some(c) => Some(c@),
                None => None,
            },
        }
    }

    pub closed spec fn prefix_view(&self) -> Seq<char> {
        self.factory_prefix@
    }

    pub closed spec fn wf(&self) -> bool {
        self.list_prefix@ == record_store_prefix_of(self.factory_prefix@)
    }

    /// Recovery under `factory_prefix`, before any page.
    pub fn new(factory_prefix: String) -> (r: Self)
        ensures
            r.value().records == Seq::<RecordValue>::empty(),
            r.value().last is None,
            r.prefix_view() == factory_prefix@,
            r.wf(),
    {
        let list_prefix = record_store_prefix(factory_prefix.as_str());
        RecoveryState { factory_prefix, list_prefix, record_store: ProcessorRecordStore::new(), last: None }
    }

    /// The prefix to list slices under.
    pub fn list_prefix(&self) -> (r: &str)
        requires
            self.wf(),
        ensures
            r@ == record_store_prefix_of(self.prefix_view()),
    {
        self.list_prefix.as_str()
    }

    /// The number of slices read so far.
    pub fn num_slices(&self) -> (r: usize)
        ensures
            r == match self.value().last {
                Some(c) => c.num_slices,
                None => 0,
            },
    {
        match &self.last {
            Some(c) => c.num_slices,
            None => 0,
        }
    }

    /// Takes one page of listed slice keys, in listing order, with the
    /// objects downloaded from them.
    pub fn apply_page(&mut self, keys: &Vec<String>, objects: &Vec<Vec<u8>>) -> (r: Result<(), ExecutionError>)
        requires
            old(self).wf(),
            keys@.len() == objects@.len(),
            match old(self).value().last {
                Some(c) => c.num_slices,
                None => 0,
            } + keys@.len() <= usize::MAX,
        ensures
            final(self).wf(),
            final(self).prefix_view() == old(self).prefix_view(),
            match recovery_step(old(self).value(), old(self).prefix_view(), key_views(keys@), object_views(objects@)) {
                Ok(v) => r is Ok && final(self).value() == v,
                Err(e) => r matches Err(x) && x@ == e,
            },
    {
        let ghost kv = key_views(keys@);
        let ghost ov = object_views(objects@);
        let ghost v0 = self.value();
        let n = keys.len();
        if n > 0 {
            let tail_key = &keys[n - 1];
            assert(kv.last() == tail_key@);
            assert(ov.last() == objects@[n - 1]@);
            let name = match name_under_dir(tail_key.as_str(), self.list_prefix.as_str()) {
                Some(name) => name,
                None => {
                    return Err(ExecutionError::UnrecognizedCheckpoint(tail_key.clone()));
                },
            };
            let epoch_id = match parse_u64(name.as_str()) {
                Some(e) => e,
                None => {
                    return Err(ExecutionError::UnrecognizedCheckpoint(tail_key.clone()));
                },
            };
            let source_states = match read_record_store_slice_data(objects[n - 1].as_slice()) {
                Ok((states, _)) => states,
                Err(e) => {
                    return Err(ExecutionError::ReadCheckpoint(e));
                },
            };
            let processor_prefix = join(self.factory_prefix.as_str(), name.as_str());
            let num_slices = match &self.last {
                Some(c) => c.num_slices + n,
                None => n,
            };
            self.last = Some(Checkpoint { num_slices, processor_prefix, epoch_id, source_states });
        }
        let ghost last1 = self.value().last;
        assert(page_checkpoint(v0.last, self.prefix_view(), kv, ov) == Ok::<_, ErrorValue>(last1));
        let mut i: usize = 0;
        assert(ov.subrange(0, n as int) =~= ov);
        while i < n
            invariant
                i <= n == objects@.len(),
                ov == object_views(objects@),
                kv == key_views(keys@),
                v0 == old(self).value(),
                page_checkpoint(v0.last, old(self).prefix_view(), kv, ov) == Ok::<_, ErrorValue>(last1),
                self.wf(),
                self.prefix_view() == old(self).prefix_view(),
                self.value().last == last1,
                apply_slices(v0.records, ov) == apply_slices(self.value().records, ov.subrange(i as int, n as int)),
            decreases n - i,
        {
            let ghost rest = ov.subrange(i as int, n as int);
            assert(rest[0] == objects@[i as int]@);
            assert(rest.drop_first() =~= ov.subrange(i + 1, n as int));
            let data = match read_record_store_slice_data(objects[i].as_slice()) {
                Ok((_, data)) => data,
                Err(e) => {
                    return Err(ExecutionError::ReadCheckpoint(e));
                },
            };
            match self.record_store.deserialize_and_extend(data.as_slice()) {
                Ok(()) => {},
                Err(e) => {
                    return Err(ExecutionError::Deserialize(e));
                },
            }
            i = i + 1;
        }
        assert(ov.subrange(n as int, n as int) =~= Seq::<Seq<u8>>::empty());
        Ok(())
    }

    /// The recovered record store and latest checkpoint.
    pub fn finish(self) -> (r: (ProcessorRecordStore, OptionCheckpoint))
        ensures
            r.0@ == self.value().records,
            r.1@ == self.value().last,
    {
        (self.record_store, OptionCheckpoint { checkpoint: self.last })
    }
}

/// A slice committed at epoch `epoch_id` and read back as the last object
/// of a page gives a checkpoint at that epoch, with the source states that
/// were committed and the processor prefix of that epoch.
pub proof fn lemma_source_state_recovery(
    last: Option<CheckpointValue>,
    factory_prefix: Seq<char>,
    keys: Seq<Seq<char>>,
    objects: Seq<Seq<u8>>,
    epoch_id: u64,
    states: Seq<(NodeKey, OpIdentifier)>,
    data: Seq<u8>,
)
    requires
        keys.len() > 0,
        keys.len() == objects.len(),
        keys.last() == slice_key_of(factory_prefix, epoch_id),
        objects.last() == uploaded_object(slice_commands(keys.last(), encode_states(states), data)),
        states_ok(states),
        encode_states(states).len() <= u64::MAX,
    ensures
        page_checkpoint(last, factory_prefix, keys, objects) matches Ok(Some(c)) && c.epoch_id
            == epoch_id && c.states == states && c.processor_prefix == processor_prefix_of(
            factory_prefix,
            epoch_id,
        ),
{
    lemma_slice_key_epoch(factory_prefix, epoch_id);
    lemma_slice_commands_object(keys.last(), encode_states(states), data);
    lemma_slice_object_round_trip(states, data);
}

} // verus!
