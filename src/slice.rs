//! The slice object: a header with the length of the source states, the
//! source states, then the serialized records.
use vstd::prelude::*;
use crate::codec::{le_value, lemma_u64_le_round_trip, push_u64_le, read_u64_le, u64_le};
use crate::field::copy_range;
use crate::node::{encode_states, lemma_states_round_trip, read_states, states_ok, NodeKey, OpIdentifier, SourceStates};

verus! {

/// Why a slice object could not be read.
#[derive(Debug, Clone, Copy, PartialEq, Eq, Structural)]
pub enum ReadCheckpointError {
    /// A length in the object claims more bytes than remain.
    NotEnoughData { expected: usize, remaining: usize },
    /// The source states in the object are not well formed.
    InvalidSourceStates,
}

/// A slice object: the length of the encoded source states in eight
/// little-endian bytes, the encoded source states, then the record data.
pub open spec fn slice_object(states: Seq<u8>, data: Seq<u8>) -> Seq<u8> {
    u64_le(states.len() as u64) + states + data
}

/// What reading a slice object gives: its source states and its record
/// data, or why it cannot be read.
pub open spec fn parse_slice(b: Seq<u8>) -> Result<(Seq<(NodeKey, OpIdentifier)>, Seq<u8>), ReadCheckpointError> {
    if b.len() < 8 {
        Err(ReadCheckpointError::NotEnoughData { expected: 8, remaining: b.len() as usize })
    } else {
        let n = le_value(b.subrange(0, 8));
        let rest = b.subrange(8, b.len() as int);
        if rest.len() < n {
            Err(ReadCheckpointError::NotEnoughData { expected: n as usize, remaining: rest.len() as usize })
        } else {
            match read_states(rest.subrange(0, n as int)) {
                None => Err(ReadCheckpointError::InvalidSourceStates),
                Some(es) => Ok((es, rest.subrange(n as int, rest.len() as int))),
            }
        }
    }
}

/// A slice object made from source states and record data reads back as
/// those source states and that data.
pub proof fn lemma_slice_object_round_trip(es: Seq<(NodeKey, OpIdentifier)>, data: Seq<u8>)
    requires
        states_ok(es),
        encode_states(es).len() <= u64::MAX,
    ensures
        parse_slice(slice_object(encode_states(es), data)) == Ok::<_, ReadCheckpointError>((es, data)),
{
    let s = encode_states(es);
    let b = slice_object(s, data);
    lemma_u64_le_round_trip(s.len() as u64);
    assert(b.subrange(0, 8) =~= u64_le(s.len() as u64));
    let rest = b.subrange(8, b.len() as int);
    assert(rest =~= s + data);
    assert(rest.subrange(0, s.len() as int) =~= s);
    assert(rest.subrange(s.len() as int, rest.len() as int) =~= data);
    lemma_states_round_trip(es);
}

/// Reads a slice object: its source states and its record data.
pub fn read_record_store_slice_data(data: &[u8]) -> (r: Result<(SourceStates, Vec<u8>), ReadCheckpointError>)
    ensures
        match parse_slice(data@) {
            Ok((es, rest)) => r matches Ok((s, d)) && s@ == es && d@ == rest,
            Err(e) => r == Err::<(SourceStates, Vec<u8>), _>(e),
        },
{
    let len = data.len();
    if len < 8 {
        return Err(ReadCheckpointError::NotEnoughData { expected: 8, remaining: len });
    }
    let n = read_u64_le(data, 0);
    let ghost rest = data@.subrange(8, len as int);
    if ((len - 8) as u64) < n {
        return Err(ReadCheckpointError::NotEnoughData { expected: n as usize, remaining: len - 8 });
    }
    let end = 8 + n as usize;
    let states_bytes = copy_range(data, 8, end);
    assert(states_bytes@ =~= rest.subrange(0, n as int));
    match SourceStates::decode(states_bytes.as_slice()) {
        None => Err(ReadCheckpointError::InvalidSourceStates),
        Some(states) => {
            let records = copy_range(data, end, len);
            assert(records@ =~= rest.subrange(n as int, rest.len() as int));
            Ok((states, records))
        },
    }
}

/// One command for the upload queue.
#[derive(Debug)]
pub enum UploadCommand {
    /// Starts a multipart upload of the object at the key.
    CreateUpload(String),
    /// Appends a part to the upload of the object at the key.
    UploadChunk(String, Vec<u8>),
    /// Makes the uploaded object at the key visible.
    CompleteUpload(String),
}

/// The value of an upload command.
pub enum CommandValue {
    Create(Seq<char>),
    Chunk(Seq<char>, Seq<u8>),
    Complete(Seq<char>),
}

impl View for UploadCommand {
    type V = CommandValue;

    open spec fn view(&self) -> CommandValue {
        match self {
            UploadCommand::CreateUpload(k) => CommandValue::Create(k@),
            UploadCommand::UploadChunk(k, b) => CommandValue::Chunk(k@, b@),
            UploadCommand::CompleteUpload(k) => CommandValue::Complete(k@),
        }
    }
}

/// The commands that upload a slice object at `key`: create, the header,
/// the source states, the record data, complete.
pub open spec fn slice_commands(key: Seq<char>, states: Seq<u8>, data: Seq<u8>) -> Seq<CommandValue> {
    seq![
        CommandValue::Create(key),
        CommandValue::Chunk(key, u64_le(states.len() as u64)),
        CommandValue::Chunk(key, states),
        CommandValue::Chunk(key, data),
        CommandValue::Complete(key),
    ]
}

/// The bytes of the object that a created, chunked and completed upload
/// leaves: its chunks, in order.
pub open spec fn uploaded_object(cmds: Seq<CommandValue>) -> Seq<u8>
    decreases cmds.len(),
{
    if cmds.len() == 0 {
        Seq::empty()
    } else {
        let rest = uploaded_object(cmds.drop_last());
        match cmds.last() {
            CommandValue::Chunk(_, b) => rest + b,
            _ => rest,
        }
    }
}

/// The commands of a slice upload leave the slice object.
pub proof fn lemma_slice_commands_object(key: Seq<char>, states: Seq<u8>, data: Seq<u8>)
    ensures
        uploaded_object(slice_commands(key, states, data)) == slice_object(states, data),
{
    let c = slice_commands(key, states, data);
    reveal_with_fuel(uploaded_object, 6);
    assert(c.drop_last().drop_last().drop_last().drop_last().drop_last() =~= Seq::<CommandValue>::empty());
    assert(c.drop_last().drop_last().drop_last().drop_last() =~= seq![CommandValue::Create(key)]);
    assert(c.drop_last().drop_last().drop_last() =~= seq![CommandValue::Create(key), CommandValue::Chunk(key, u64_le(states.len() as u64))]);
    assert(uploaded_object(c) =~= slice_object(states, data));
}

fn clone_key(k: &String) -> (r: String)
    ensures
        r@ == k@,
{
    k.clone()
}

/// The upload commands for a slice object at `key`, holding the encoded
/// source states and the record data.
pub fn write_record_store_slice_data(key: String, source_states: &SourceStates, data: Vec<u8>) -> (r: Vec<UploadCommand>)
    ensures
        r@.len() == 5,
        forall|i: int| 0 <= i < 5 ==> (#[trigger] r@[i])@ == slice_commands(key@, encode_states(source_states@), data@)[i],
        states_ok(source_states@),
        encode_states(source_states@).len() <= u64::MAX,
{
    let states = source_states.encode();
    let _n = states.len();
    let mut header: Vec<u8> = Vec::new();
    push_u64_le(&mut header, states.len() as u64);
    assert(header@ =~= u64_le(states@.len() as u64));
    let mut r: Vec<UploadCommand> = Vec::new();
    r.push(UploadCommand::CreateUpload(clone_key(&key)));
    r.push(UploadCommand::UploadChunk(clone_key(&key), header));
    r.push(UploadCommand::UploadChunk(clone_key(&key), states));
    r.push(UploadCommand::UploadChunk(clone_key(&key), data));
    r.push(UploadCommand::CompleteUpload(key));
    r
}

} // verus!
