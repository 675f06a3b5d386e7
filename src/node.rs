//! Node handles, source positions, and the source-states map.
use vstd::prelude::*;
use crate::field::{
    decode_records, encode_records, lemma_encode_records_push, lemma_read_records, push_record,
    read_records, record_value_ok, Field, FieldValue, Record, RecordValue,
};
use crate::keys::{decimal_digits, format_decimal};

verus! {

/// Identifies a processor instance: an optional numeric scope and an id.
#[derive(Debug, Clone, PartialEq, Eq)]
pub struct NodeHandle {
    pub ns: Option<u16>,
    pub id: String,
}

/// The value of a node handle.
pub type NodeKey = (Option<u16>, Seq<char>);

impl View for NodeHandle {
    type V = NodeKey;

    open spec fn view(&self) -> NodeKey {
        (self.ns, self.id@)
    }
}

/// The string form of a node handle: `<scope>-<id>`, or `<id>` without a
/// scope.
pub open spec fn handle_string(k: NodeKey) -> Seq<char> {
    match k.0 {
        Some(ns) => decimal_digits(ns as nat) + seq!['-'] + k.1,
        None => k.1,
    }
}

impl NodeHandle {
    pub fn new(ns: Option<u16>, id: String) -> (r: Self)
        ensures
            r@ == (ns, id@),
    {
        NodeHandle { ns, id }
    }

    /// The string form, as it appears in storage keys.
    pub fn to_key_string(&self) -> (r: String)
        ensures
            r@ == handle_string(self@),
    {
        proof {
            reveal_strlit("-");
        }
        match self.ns {
            Some(ns) => format_decimal(ns as u64).concat("-").concat(self.id.as_str()),
            None => self.id.clone(),
        }
    }

    /// A copy of the handle.
    pub fn duplicate(&self) -> (r: Self)
        ensures
            r@ == self@,
    {
        NodeHandle { ns: self.ns, id: self.id.clone() }
    }
}

/// Whether two node handles are the same.
pub fn handle_eq(a: &NodeHandle, b: &NodeHandle) -> (r: bool)
    ensures
        r == (a@ == b@),
{
    a.ns == b.ns && a.id.eq(&b.id)
}

/// A position in a source from which replay can resume.
#[derive(Debug, Clone, Copy, PartialEq, Eq, Structural)]
pub struct OpIdentifier {
    pub txid: u64,
    pub seq_in_tx: u64,
}

impl OpIdentifier {
    pub fn new(txid: u64, seq_in_tx: u64) -> (r: Self)
        ensures
            r.txid == txid,
            r.seq_in_tx == seq_in_tx,
    {
        OpIdentifier { txid, seq_in_tx }
    }
}

/// The position recorded for `k`: the first entry with that handle.
pub open spec fn lookup(es: Seq<(NodeKey, OpIdentifier)>, k: NodeKey) -> Option<OpIdentifier>
    decreases es.len(),
{
    if es.len() == 0 {
        None
    } else if es[0].0 == k {
        Some(es[0].1)
    } else {
        lookup(es.drop_first(), k)
    }
}

/// The position of each source at an epoch boundary.
#[derive(Debug)]
pub struct SourceStates {
    entries: Vec<(NodeHandle, OpIdentifier)>,
}

impl View for SourceStates {
    type V = Seq<(NodeKey, OpIdentifier)>;

    closed spec fn view(&self) -> Seq<(NodeKey, OpIdentifier)> {
        Seq::new(self.entries@.len(), |i: int| (self.entries@[i].0@, self.entries@[i].1))
    }
}

proof fn lemma_lookup_update(es: Seq<(NodeKey, OpIdentifier)>, i: int, k: NodeKey, op: OpIdentifier)
    requires
        0 <= i < es.len(),
        es[i].0 == k,
        forall|j: int| 0 <= j < i ==> es[j].0 != k,
    ensures
        lookup(es.update(i, (k, op)), k) == Some(op),
        forall|k2: NodeKey| k2 != k ==> lookup(es.update(i, (k, op)), k2) == lookup(es, k2),
    decreases es.len(),
{
    let u = es.update(i, (k, op));
    if i > 0 {
        assert(u.drop_first() =~= es.drop_first().update(i - 1, (k, op)));
        lemma_lookup_update(es.drop_first(), i - 1, k, op);
        assert forall|k2: NodeKey| k2 != k implies lookup(u, k2) == lookup(es, k2) by {
            assert(u[0] == es[0]);
            assert(lookup(u.drop_first(), k2) == lookup(es.drop_first(), k2));
        }
    } else {
        assert(u.drop_first() =~= es.drop_first());
        assert forall|k2: NodeKey| k2 != k implies lookup(u, k2) == lookup(es, k2) by {
            assert(u[0].0 == k);
        }
    }
}

proof fn lemma_lookup_absent(es: Seq<(NodeKey, OpIdentifier)>, k: NodeKey, op: OpIdentifier)
    requires
        forall|j: int| 0 <= j < es.len() ==> es[j].0 != k,
    ensures
        lookup(es, k) is None,
        lookup(es.push((k, op)), k) == Some(op),
        forall|k2: NodeKey| k2 != k ==> lookup(es.push((k, op)), k2) == lookup(es, k2),
    decreases es.len(),
{
    let u = es.push((k, op));
    if es.len() > 0 {
        assert(u.drop_first() =~= es.drop_first().push((k, op)));
        lemma_lookup_absent(es.drop_first(), k, op);
        assert forall|k2: NodeKey| k2 != k implies lookup(u, k2) == lookup(es, k2) by {
            assert(u[0] == es[0]);
            assert(lookup(u.drop_first(), k2) == lookup(es.drop_first(), k2));
        }
    } else {
        assert(u.drop_first() =~= es);
        assert forall|k2: NodeKey| k2 != k implies lookup(u, k2) == lookup(es, k2) by {
            assert(u[0].0 == k);
        }
    }
}

impl SourceStates {
    /// No sources.
    pub fn new() -> (r: Self)
        ensures
            r@ == Seq::<(NodeKey, OpIdentifier)>::empty(),
    {
        let r = SourceStates { entries: Vec::new() };
        assert(r@ =~= Seq::<(NodeKey, OpIdentifier)>::empty());
        r
    }

    /// The number of entries.
    pub fn len(&self) -> (r: usize)
        ensures
            r == self@.len(),
    {
        self.entries.len()
    }

    /// The position recorded for `handle`.
    pub fn get(&self, handle: &NodeHandle) -> (r: Option<OpIdentifier>)
        ensures
            r == lookup(self@, handle@),
    {
        let n = self.entries.len();
        let mut i: usize = 0;
        assert(self@.subrange(0, n as int) =~= self@);
        while i < n
            invariant
                i <= n == self@.len(),
                lookup(self@, handle@) == lookup(self@.subrange(i as int, n as int), handle@),
            decreases n - i,
        {
            let ghost rest = self@.subrange(i as int, n as int);
            assert(rest.drop_first() =~= self@.subrange(i + 1, n as int));
            assert(rest[0] == self@[i as int]);
            if handle_eq(&self.entries[i].0, handle) {
                return Some(self.entries[i].1);
            }
            i = i + 1;
        }
        None
    }

    /// Records `op` for `handle`, replacing what was recorded for it.
    pub fn insert(&mut self, handle: NodeHandle, op: OpIdentifier)
        ensures
            lookup(final(self)@, handle@) == Some(op),
            forall|k: NodeKey| k != handle@ ==> lookup(final(self)@, k) == lookup(old(self)@, k),
    {
        let ghost k = handle@;
        let ghost es = self@;
        let n = self.entries.len();
        let mut i: usize = 0;
        while i < n
            invariant
                i <= n == self@.len(),
                self@ == es,
                es == old(self)@,
                k == handle@,
                forall|j: int| 0 <= j < i ==> es[j].0 != k,
            decreases n - i,
        {
            if handle_eq(&self.entries[i].0, &handle) {
                proof {
                    lemma_lookup_update(es, i as int, k, op);
                }
                self.entries.set(i, (handle, op));
                assert(self@ =~= es.update(i as int, (k, op)));
                assert forall|k2: NodeKey| k2 != k implies lookup(self@, k2) == lookup(es, k2) by {
                    assert(lookup(es.update(i as int, (k, op)), k2) == lookup(es, k2));
                }
                return;
            }
            i = i + 1;
        }
        proof {
            lemma_lookup_absent(es, k, op);
        }
        self.entries.push((handle, op));
        assert(self@ =~= es.push((k, op)));
    }
}

/// A source-state entry as a record of four fields: the scope (`Null` when
/// there is none), the id, the transaction id and the sequence number.
pub open spec fn entry_record(e: (NodeKey, OpIdentifier)) -> RecordValue {
    seq![
        match e.0.0 {
            Some(ns) => FieldValue::UInt(ns as u64),
            None => FieldValue::Null,
        },
        FieldValue::String(e.0.1),
        FieldValue::UInt(e.1.txid),
        FieldValue::UInt(e.1.seq_in_tx),
    ]
}

/// The entry that a record of that shape stands for.
pub open spec fn record_entry(r: RecordValue) -> Option<(NodeKey, OpIdentifier)> {
    if r.len() != 4 {
        None
    } else {
        let ns: Option<Option<u16>> = match r[0] {
            FieldValue::Null => Some(None),
            FieldValue::UInt(x) => if x <= u16::MAX {
                Some(Some(x as u16))
            } else {
                None
            },
            _ => None,
        };
        match (ns, r[1], r[2], r[3]) {
            (Some(ns), FieldValue::String(id), FieldValue::UInt(txid), FieldValue::UInt(seq)) => Some(
                ((ns, id), OpIdentifier { txid, seq_in_tx: seq }),
            ),
            _ => None,
        }
    }
}

/// The records that stand for the entries.
pub open spec fn entry_records(es: Seq<(NodeKey, OpIdentifier)>) -> Seq<RecordValue> {
    Seq::new(es.len(), |i: int| entry_record(es[i]))
}

/// Source states as bytes: their entries, in order, as records.
pub open spec fn encode_states(es: Seq<(NodeKey, OpIdentifier)>) -> Seq<u8> {
    encode_records(entry_records(es))
}

/// The source states that `b` holds, if it holds records of entries only.
pub open spec fn read_states(b: Seq<u8>) -> Option<Seq<(NodeKey, OpIdentifier)>> {
    match read_records(b) {
        None => None,
        Some(rs) => if forall|i: int| 0 <= i < rs.len() ==> (#[trigger] record_entry(rs[i])) is Some {
            Some(Seq::new(rs.len(), |i: int| record_entry(rs[i])->Some_0))
        } else {
            None
        },
    }
}

/// Whether the entries have lengths that the encoding can carry.
pub open spec fn states_ok(es: Seq<(NodeKey, OpIdentifier)>) -> bool {
    forall|i: int| 0 <= i < es.len() ==> record_value_ok(#[trigger] entry_record(es[i]))
}

/// Source states written as bytes read back as the same entries.
pub proof fn lemma_states_round_trip(es: Seq<(NodeKey, OpIdentifier)>)
    requires
        states_ok(es),
    ensures
        read_states(encode_states(es)) == Some(es),
{
    let rs = entry_records(es);
    assert forall|i: int| 0 <= i < rs.len() implies record_value_ok(#[trigger] rs[i]) by {
        assert(record_value_ok(entry_record(es[i])));
    }
    lemma_read_records(rs);
    assert forall|i: int| 0 <= i < rs.len() implies (#[trigger] record_entry(rs[i])) is Some && record_entry(rs[i])->Some_0 == es[i] by {
        assert(rs[i] == entry_record(es[i]));
    }
    assert(Seq::new(rs.len(), |i: int| record_entry(rs[i])->Some_0) =~= es);
}

/// The record that stands for an entry.
fn entry_to_record(h: &NodeHandle, op: &OpIdentifier) -> (r: Record)
    ensures
        r.deep_view() == entry_record((h@, *op)),
{
    let mut r: Vec<Field> = Vec::new();
    match h.ns {
        Some(ns) => r.push(Field::UInt(ns as u64)),
        None => r.push(Field::Null),
    }
    r.push(Field::String(h.id.clone()));
    r.push(Field::UInt(op.txid));
    r.push(Field::UInt(op.seq_in_tx));
    assert(r.deep_view() =~= entry_record((h@, *op)));
    r
}

/// The entry that a record stands for, if it has that shape.
fn record_to_entry(r: &Record) -> (e: Option<(NodeHandle, OpIdentifier)>)
    ensures
        match record_entry(r.deep_view()) {
            Some(x) => e matches Some(y) && (y.0@, y.1) == x,
            None => e is None,
        },
{
    if r.len() != 4 {
        return None;
    }
    let ns = match &r[0] {
        Field::Null => None,
        Field::UInt(x) => {
            if *x > u16::MAX as u64 {
                return None;
            }
            Some(*x as u16)
        },
        _ => {
            return None;
        },
    };
    let id = match &r[1] {
        Field::String(s) => s.clone(),
        _ => {
            return None;
        },
    };
    let txid = match &r[2] {
        Field::UInt(x) => *x,
        _ => {
            return None;
        },
    };
    let seq = match &r[3] {
        Field::UInt(x) => *x,
        _ => {
            return None;
        },
    };
    Some((NodeHandle { ns, id }, OpIdentifier { txid, seq_in_tx: seq }))
}

impl SourceStates {
    /// The states as bytes, entries in order.
    pub fn encode(&self) -> (r: Vec<u8>)
        ensures
            r@ == encode_states(self@),
            states_ok(self@),
    {
        let mut out: Vec<u8> = Vec::new();
        let n = self.entries.len();
        let mut i: usize = 0;
        while i < n
            invariant
                i <= n == self@.len(),
                out@ == encode_records(entry_records(self@).subrange(0, i as int)),
                forall|k: int| 0 <= k < i ==> record_value_ok(#[trigger] entry_record(self@[k])),
            decreases n - i,
        {
            let rec = entry_to_record(&self.entries[i].0, &self.entries[i].1);
            assert(self@[i as int] == (self.entries@[i as int].0@, self.entries@[i as int].1));
            push_record(&mut out, &rec);
            proof {
                let rs = entry_records(self@);
                lemma_encode_records_push(rs.subrange(0, i as int), rs[i as int]);
                assert(rs.subrange(0, i as int).push(rs[i as int]) =~= rs.subrange(0, i + 1));
            }
            i = i + 1;
        }
        assert(entry_records(self@).subrange(0, n as int) =~= entry_records(self@));
        out
    }

    /// The states that `bytes` holds, if it holds records of entries only.
    pub fn decode(bytes: &[u8]) -> (r: Option<SourceStates>)
        ensures
            match read_states(bytes@) {
                Some(es) => r matches Some(s) && s@ == es,
                None => r is None,
            },
    {
        let records = match decode_records(bytes) {
            Some(v) => v,
            None => {
                return None;
            },
        };
        let ghost rs = records.deep_view();
        let mut entries: Vec<(NodeHandle, OpIdentifier)> = Vec::new();
        let n = records.len();
        let mut i: usize = 0;
        while i < n
            invariant
                i <= n == records@.len() == rs.len(),
                rs == records.deep_view(),
                read_records(bytes@) == Some(rs),
                entries@.len() == i,
                forall|k: int| 0 <= k < i ==> (#[trigger] record_entry(rs[k])) is Some,
                forall|k: int|
                    0 <= k < i ==> (entries@[k].0@, entries@[k].1) == record_entry(rs[k])->Some_0,
            decreases n - i,
        {
            match record_to_entry(&records[i]) {
                Some(e) => {
                    entries.push(e);
                },
                None => {
                    assert(record_entry(rs[i as int]) is None);
                    return None;
                },
            }
            i = i + 1;
        }
        let r = SourceStates { entries };
        assert(r@ =~= Seq::new(rs.len(), |k: int| record_entry(rs[k])->Some_0));
        Some(r)
    }
}

} // verus!
