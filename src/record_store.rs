//! The append-only, interning store of records, addressed by dense index.
use vstd::prelude::*;
use crate::field::{
    clone_record, encode_records, lemma_encode_records_push, lemma_read_records, push_record,
    read_records, decode_records, record_eq, record_value_ok, Record, RecordValue,
};

verus! {

/// Whether `i` is the first index of `s` that holds `r`.
pub open spec fn is_first_index(s: Seq<RecordValue>, r: RecordValue, i: int) -> bool {
    0 <= i < s.len() && s[i] == r && forall|j: int| 0 <= j < i ==> s[j] != r
}

/// Interning `r` into the store `s`: the store afterwards and the index
/// handed back. An equal record keeps its index; a new one is appended.
pub open spec fn intern(s: Seq<RecordValue>, r: RecordValue) -> (Seq<RecordValue>, nat) {
    if s.contains(r) {
        (s, (choose|i: int| is_first_index(s, r, i)) as nat)
    } else {
        (s.push(r), s.len())
    }
}

/// The store after interning `rs` in order into an empty one.
pub open spec fn intern_all(rs: Seq<RecordValue>) -> Seq<RecordValue>
    decreases rs.len(),
{
    if rs.len() == 0 {
        Seq::empty()
    } else {
        intern(intern_all(rs.drop_last()), rs.last()).0
    }
}

/// The index handed back for the `j`-th of the records `rs` interned in
/// order into an empty store.
pub open spec fn index_at(rs: Seq<RecordValue>, j: int) -> nat {
    intern(intern_all(rs.subrange(0, j)), rs[j]).1
}

/// Whether some record of `rs`, interned in order into an empty store, was
/// handed index `i`.
pub open spec fn handed_out(rs: Seq<RecordValue>, i: int) -> bool {
    exists|j: int| 0 <= j < rs.len() && index_at(rs, j) == i
}

proof fn lemma_first_index_exists(s: Seq<RecordValue>, r: RecordValue)
    requires
        s.contains(r),
    ensures
        exists|i: int| is_first_index(s, r, i),
    decreases s.len(),
{
    if s.last() == r && !s.drop_last().contains(r) {
        assert forall|j: int| 0 <= j < s.len() - 1 implies s[j] != r by {
            assert(s.drop_last()[j] == s[j]);
        }
        assert(is_first_index(s, r, s.len() - 1));
    } else if s.last() == r {
        lemma_first_index_exists(s.drop_last(), r);
        let i = choose|i: int| is_first_index(s.drop_last(), r, i);
        assert forall|j: int| 0 <= j < i implies s[j] != r by {
            assert(s.drop_last()[j] == s[j]);
        }
        assert(s.drop_last()[i] == s[i]);
        assert(is_first_index(s, r, i));
    } else {
        let k = choose|k: int| 0 <= k < s.len() && s[k] == r;
        assert(s.drop_last()[k] == r);
        assert(s.drop_last().contains(r));
        lemma_first_index_exists(s.drop_last(), r);
        let i = choose|i: int| is_first_index(s.drop_last(), r, i);
        assert forall|j: int| 0 <= j < i implies s[j] != r by {
            assert(s.drop_last()[j] == s[j]);
        }
        assert(s.drop_last()[i] == s[i]);
        assert(is_first_index(s, r, i));
    }
}

proof fn lemma_first_index_unique(s: Seq<RecordValue>, r: RecordValue, i: int, j: int)
    requires
        is_first_index(s, r, i),
        is_first_index(s, r, j),
    ensures
        i == j,
{
}

/// What interning states of its result: the index holds the record, and
/// the store only grows, by the record alone when it was new.
pub proof fn lemma_intern(s: Seq<RecordValue>, r: RecordValue)
    ensures
        intern(s, r).1 < intern(s, r).0.len(),
        intern(s, r).0[intern(s, r).1 as int] == r,
        s.contains(r) ==> intern(s, r).0 == s && is_first_index(s, r, intern(s, r).1 as int),
        !s.contains(r) ==> intern(s, r).0 == s.push(r) && intern(s, r).1 == s.len(),
        s.no_duplicates() ==> intern(s, r).0.no_duplicates(),
{
    if s.contains(r) {
        lemma_first_index_exists(s, r);
    } else {
        let t = s.push(r);
        assert forall|i: int, j: int|
            s.no_duplicates() && 0 <= i < t.len() && 0 <= j < t.len() && i != j implies t[i] != t[j] by {
            if i == s.len() {
                assert(s[j] == t[j]);
            } else if j == s.len() {
                assert(s[i] == t[i]);
            }
        }
    }
}

/// Interning is idempotent: interning the same record again hands back the
/// same index and leaves the store as it was.
pub proof fn lemma_intern_twice(s: Seq<RecordValue>, r: RecordValue)
    ensures
        intern(intern(s, r).0, r) == intern(s, r),
{
    lemma_intern(s, r);
    let (s1, i) = intern(s, r);
    assert(s1.contains(r));
    lemma_intern(s1, r);
    if s.contains(r) {
    } else {
        assert forall|j: int| 0 <= j < i implies s1[j] != r by {
            assert(s1[j] == s[j]);
        }
        assert(is_first_index(s1, r, i as int));
        lemma_first_index_unique(s1, r, i as int, intern(s1, r).1 as int);
    }
}

/// Interning any sequence of records into an empty store keeps each
/// distinct record once, and the indices handed back are exactly
/// `0 .. k`, where `k` is the number of distinct records.
pub proof fn lemma_interning_dense(rs: Seq<RecordValue>)
    ensures
        intern_all(rs).no_duplicates(),
        intern_all(rs).to_set() == rs.to_set(),
        intern_all(rs).len() == rs.to_set().len(),
        forall|j: int|
            0 <= j < rs.len() ==> index_at(rs, j) < intern_all(rs).len() && intern_all(rs)[index_at(
                rs,
                j,
            ) as int] == rs[j],
        forall|i: int| 0 <= i < intern_all(rs).len() ==> #[trigger] handed_out(rs, i),
    decreases rs.len(),
{
    lemma_interning_prefix(rs);
    intern_all(rs).unique_seq_to_set();
}

#[verifier::rlimit(50)]
proof fn lemma_interning_prefix(rs: Seq<RecordValue>)
    ensures
        intern_all(rs).no_duplicates(),
        intern_all(rs).to_set() == rs.to_set(),
        forall|j: int|
            0 <= j < rs.len() ==> index_at(rs, j) < intern_all(rs).len() && intern_all(rs)[index_at(
                rs,
                j,
            ) as int] == rs[j],
        forall|i: int| 0 <= i < intern_all(rs).len() ==> #[trigger] handed_out(rs, i),
    decreases rs.len(),
{
    if rs.len() == 0 {
        assert(intern_all(rs).to_set() =~= rs.to_set());
    } else {
        let p = rs.drop_last();
        let x = rs.last();
        lemma_interning_prefix(p);
        let s0 = intern_all(p);
        let s1 = intern_all(rs);
        lemma_intern(s0, x);
        assert(rs.subrange(0, rs.len() - 1) =~= p);
        assert forall|j: int| 0 <= j < p.len() implies index_at(rs, j) == index_at(p, j) && rs[j] == p[j] by {
            assert(rs.subrange(0, j) =~= p.subrange(0, j));
        }
        assert forall|j: int| 0 <= j < rs.len() implies index_at(rs, j) < s1.len() && s1[index_at(rs, j) as int] == rs[j] by {
            if j < p.len() {
                assert(s1[index_at(p, j) as int] == s0[index_at(p, j) as int]);
            }
        }
        assert forall|i: int| 0 <= i < s1.len() implies #[trigger] handed_out(rs, i) by {
            if i < s0.len() {
                assert(handed_out(p, i));
                let j = choose|j: int| 0 <= j < p.len() && index_at(p, j) == i;
                assert(index_at(rs, j) == i);
            } else {
                assert(index_at(rs, rs.len() - 1) == i);
            }
        }
        assert forall|y: RecordValue| s1.to_set().contains(y) <==> rs.to_set().contains(y) by {
            if s1.contains(y) {
                let k = choose|k: int| 0 <= k < s1.len() && s1[k] == y;
                if k < s0.len() {
                    assert(s0[k] == y);
                    assert(s0.to_set().contains(y));
                    let m = choose|m: int| 0 <= m < p.len() && p[m] == y;
                    assert(rs[m] == y);
                } else {
                    assert(rs[rs.len() - 1] == y);
                }
            }
            if rs.contains(y) {
                let m = choose|m: int| 0 <= m < rs.len() && rs[m] == y;
                assert(s1[index_at(rs, m) as int] == y);
            }
        }
        assert(s1.to_set() =~= rs.to_set());
    }
}

/// The records that a fresh store holds after it has read `slices` in
/// order, if each of them reads back.
pub open spec fn restore(slices: Seq<Seq<u8>>) -> Option<Seq<RecordValue>>
    decreases slices.len(),
{
    if slices.len() == 0 {
        Some(Seq::empty())
    } else {
        match restore(slices.drop_last()) {
            None => None,
            Some(s) => match read_records(slices.last()) {
                None => None,
                Some(rs) => Some(s + rs),
            },
        }
    }
}

/// The slices that a store `s` is serialized into when successive commits
/// cut it at the indices `cuts`.
pub open spec fn slices_of(s: Seq<RecordValue>, cuts: Seq<int>) -> Seq<Seq<u8>> {
    Seq::new((cuts.len() - 1) as nat, |i: int| encode_records(s.subrange(cuts[i], cuts[i + 1])))
}

/// Whether `cuts` splits `0 .. n` into successive ranges.
pub open spec fn is_partition(cuts: Seq<int>, n: int) -> bool {
    cuts.len() >= 1 && cuts[0] == 0 && cuts.last() == n && forall|i: int, j: int|
        0 <= i <= j < cuts.len() ==> cuts[i] <= cuts[j]
}

proof fn lemma_restore_prefix(s: Seq<RecordValue>, cuts: Seq<int>)
    requires
        cuts.len() >= 1,
        cuts[0] == 0,
        cuts.last() <= s.len(),
        forall|i: int, j: int| 0 <= i <= j < cuts.len() ==> cuts[i] <= cuts[j],
        forall|i: int| 0 <= i < s.len() ==> record_value_ok(#[trigger] s[i]),
    ensures
        restore(slices_of(s, cuts)) == Some(s.subrange(0, cuts.last())),
    decreases cuts.len(),
{
    if cuts.len() == 1 {
        assert(slices_of(s, cuts).len() == 0);
        assert(s.subrange(0, 0) =~= Seq::<RecordValue>::empty());
    } else {
        let p = cuts.drop_last();
        let k = cuts.len() - 1;
        assert(p.last() == cuts[k - 1]);
        lemma_restore_prefix(s, p);
        assert(slices_of(s, cuts).drop_last() =~= slices_of(s, p));
        let part = s.subrange(cuts[k - 1], cuts[k]);
        assert forall|i: int| 0 <= i < part.len() implies record_value_ok(#[trigger] part[i]) by {
            assert(part[i] == s[cuts[k - 1] + i]);
        }
        lemma_read_records(part);
        assert(s.subrange(0, cuts[k - 1]) + part =~= s.subrange(0, cuts[k]));
    }
}

/// A store serialized in slices at any sequence of commit points, and read
/// back slice by slice into a fresh store, holds the same records at the
/// same indices.
pub proof fn lemma_slice_round_trip(s: Seq<RecordValue>, cuts: Seq<int>)
    requires
        is_partition(cuts, s.len() as int),
        forall|i: int| 0 <= i < s.len() ==> record_value_ok(#[trigger] s[i]),
    ensures
        restore(slices_of(s, cuts)) == Some(s),
{
    lemma_restore_prefix(s, cuts);
    assert(s.subrange(0, s.len() as int) =~= s);
}

/// The store of records: record `i` is the one handed index `i`.
pub struct ProcessorRecordStore {
    records: Vec<Record>,
}

impl View for ProcessorRecordStore {
    type V = Seq<RecordValue>;

    closed spec fn view(&self) -> Seq<RecordValue> {
        self.records.deep_view()
    }
}

/// Why serialized records could not be read back.
#[derive(Debug, Clone, Copy, PartialEq, Eq)]
pub enum DeserializeError {
    /// The bytes are not a sequence of whole, well-formed records.
    MalformedRecords,
}

impl ProcessorRecordStore {
    /// An empty store.
    pub fn new() -> (r: Self)
        ensures
            r@ == Seq::<RecordValue>::empty(),
    {
        let r = ProcessorRecordStore { records: Vec::new() };
        assert(r@ =~= Seq::<RecordValue>::empty());
        r
    }

    /// The number of records held.
    pub fn num_records(&self) -> (r: usize)
        ensures
            r == self@.len(),
    {
        self.records.len()
    }

    /// The record at `index`.
    pub fn get(&self, index: usize) -> (r: &Record)
        requires
            index < self@.len(),
        ensures
            r.deep_view() == self@[index as int],
    {
        &self.records[index]
    }

    /// Interns `record`: hands back the index of an equal record if there is
    /// one, else appends it and hands back its new index.
    pub fn create_ref(&mut self, record: &Record) -> (r: usize)
        ensures
            (final(self)@, r as nat) == intern(old(self)@, record.deep_view()),
    {
        let ghost s = self@;
        let ghost rv = record.deep_view();
        let n = self.records.len();
        let mut i: usize = 0;
        while i < n
            invariant
                i <= n == self.records@.len(),
                self@ == s,
                rv == record.deep_view(),
                forall|j: int| 0 <= j < i ==> s[j] != rv,
            decreases n - i,
        {
            assert(s[i as int] == self.records@[i as int].deep_view());
            if record_eq(&self.records[i], record) {
                proof {
                    assert(s[i as int] == rv);
                    assert(is_first_index(s, rv, i as int));
                    assert(s.contains(rv));
                    lemma_intern(s, rv);
                    lemma_first_index_unique(s, rv, i as int, intern(s, rv).1 as int);
                }
                return i;
            }
            i = i + 1;
        }
        assert(!s.contains(rv));
        self.records.push(clone_record(record));
        assert(self@ =~= s.push(rv));
        n
    }

    /// Serializes the records from `from_index` on: the bytes and how many
    /// records they hold. The same records give the same bytes.
    pub fn serialize_slice(&self, from_index: usize) -> (r: (Vec<u8>, usize))
        requires
            from_index <= self@.len(),
        ensures
            r.0@ == encode_records(self@.subrange(from_index as int, self@.len() as int)),
            r.1 == self@.len() - from_index,
            forall|i: int| 0 <= i < self@.len() ==> record_value_ok(#[trigger] self@[i]),
    {
        let mut out: Vec<u8> = Vec::new();
        let n = self.records.len();
        let mut i: usize = 0;
        while i < n
            invariant
                i <= n == self@.len(),
                from_index <= n,
                i < from_index ==> out@.len() == 0,
                i >= from_index ==> out@ == encode_records(self@.subrange(from_index as int, i as int)),
                forall|k: int| 0 <= k < i ==> record_value_ok(#[trigger] self@[k]),
            decreases n - i,
        {
            let ghost before = out@;
            if i >= from_index {
                push_record(&mut out, &self.records[i]);
                proof {
                    lemma_encode_records_push(self@.subrange(from_index as int, i as int), self@[i as int]);
                    assert(self@.subrange(from_index as int, i as int).push(self@[i as int])
                        =~= self@.subrange(from_index as int, i + 1));
                }
            } else {
                let mut scratch: Vec<u8> = Vec::new();
                push_record(&mut scratch, &self.records[i]);
                if i + 1 == from_index {
                    assert(self@.subrange(from_index as int, from_index as int) =~= Seq::<RecordValue>::empty());
                }
            }
            i = i + 1;
        }
        if from_index == n {
            assert(self@.subrange(from_index as int, n as int) =~= Seq::<RecordValue>::empty());
        }
        (out, n - from_index)
    }

    /// Appends the records that `bytes` holds, in order, so that each keeps
    /// the index it had when it was serialized. Bytes that are not whole,
    /// well-formed records are refused and leave the store as it was.
    pub fn deserialize_and_extend(&mut self, bytes: &[u8]) -> (r: Result<(), DeserializeError>)
        ensures
            match read_records(bytes@) {
                Some(rs) => r is Ok && final(self)@ == old(self)@ + rs,
                None => r is Err && final(self)@ == old(self)@,
            },
    {
        let mut decoded = match decode_records(bytes) {
            Some(d) => d,
            None => {
                return Err(DeserializeError::MalformedRecords);
            },
        };
        let ghost s = self@;
        let ghost added = decoded.deep_view();
        self.records.append(&mut decoded);
        assert(self@ =~= s + added);
        Ok(())
    }
}

} // verus!
