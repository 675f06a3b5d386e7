//! Record fields, their values, and their byte encoding.
use vstd::prelude::*;
use vstd::utf8::*;
use crate::codec::{
    le_value, length_prefixed, lemma_u64_le_round_trip, push_length_prefixed, push_u64_le, read_u64_le,
    u64_le,
};

verus! {

broadcast use {encode_utf8_decode_utf8, encode_utf8_valid_utf8};

/// One typed field of a record.
#[derive(Debug, Clone, PartialEq, Eq)]
pub enum Field {
    UInt(u64),
    Int(i64),
    Boolean(bool),
    String(String),
    Binary(Vec<u8>),
    Null,
}

/// The value that a field holds.
pub enum FieldValue {
    UInt(u64),
    Int(i64),
    Boolean(bool),
    String(Seq<char>),
    Binary(Seq<u8>),
    Null,
}

impl DeepView for Field {
    type V = FieldValue;

    open spec fn deep_view(&self) -> FieldValue {
        match self {
            Field::UInt(x) => FieldValue::UInt(*x),
            Field::Int(x) => FieldValue::Int(*x),
            Field::Boolean(b) => FieldValue::Boolean(*b),
            Field::String(s) => FieldValue::String(s@),
            Field::Binary(b) => FieldValue::Binary(b@),
            Field::Null => FieldValue::Null,
        }
    }
}

/// A record is an ordered tuple of fields.
pub type Record = Vec<Field>;

/// The value of a record: the values of its fields, in order.
pub type RecordValue = Seq<FieldValue>;

/// Whether a field value has lengths that the encoding can carry.
pub open spec fn field_value_ok(v: FieldValue) -> bool {
    match v {
        FieldValue::String(s) => encode_utf8(s).len() <= u64::MAX,
        FieldValue::Binary(b) => b.len() <= u64::MAX,
        _ => true,
    }
}

/// Whether a record value has lengths that the encoding can carry.
pub open spec fn record_value_ok(r: RecordValue) -> bool {
    r.len() <= u64::MAX && forall|i: int| 0 <= i < r.len() ==> field_value_ok(#[trigger] r[i])
}

pub open spec fn tag_uint() -> u8 { 0 }
pub open spec fn tag_int() -> u8 { 1 }
pub open spec fn tag_bool() -> u8 { 2 }
pub open spec fn tag_string() -> u8 { 3 }
pub open spec fn tag_binary() -> u8 { 4 }
pub open spec fn tag_null() -> u8 { 5 }

/// A field: one tag byte, then the payload. Integers take eight
/// little-endian bytes (`Int` as its two's complement), a boolean one byte
/// (`0` or `1`), text its UTF-8 bytes and binary its bytes, both
/// length-prefixed; `Null` has no payload.
pub open spec fn encode_field(v: FieldValue) -> Seq<u8> {
    match v {
        FieldValue::UInt(x) => seq![tag_uint()] + u64_le(x),
        FieldValue::Int(x) => seq![tag_int()] + u64_le(x as u64),
        FieldValue::Boolean(b) => seq![tag_bool(), if b { 1u8 } else { 0u8 }],
        FieldValue::String(s) => seq![tag_string()] + length_prefixed(encode_utf8(s)),
        FieldValue::Binary(b) => seq![tag_binary()] + length_prefixed(b),
        FieldValue::Null => seq![tag_null()],
    }
}

/// The encodings of `fs`, one after the other.
pub open spec fn encode_fields(fs: Seq<FieldValue>) -> Seq<u8>
    decreases fs.len(),
{
    if fs.len() == 0 {
        Seq::empty()
    } else {
        encode_field(fs[0]) + encode_fields(fs.drop_first())
    }
}

/// A record: its number of fields in eight little-endian bytes, then its
/// fields.
pub open spec fn encode_record(r: RecordValue) -> Seq<u8> {
    u64_le(r.len() as u64) + encode_fields(r)
}

/// A length-prefixed byte string at the front of `b`: its bytes and the
/// number of bytes read.
pub open spec fn read_length_prefixed(b: Seq<u8>) -> Option<(Seq<u8>, nat)> {
    if b.len() < 8 {
        None
    } else {
        let n = le_value(b.subrange(0, 8));
        if b.len() - 8 < n {
            None
        } else {
            Some((b.subrange(8, 8 + n as int), 8 + n))
        }
    }
}

/// The field at the front of `b`, and the number of bytes it takes.
pub open spec fn read_field(b: Seq<u8>) -> Option<(FieldValue, nat)> {
    if b.len() < 1 {
        None
    } else {
        let tag = b[0];
        let rest = b.drop_first();
        if tag == tag_uint() || tag == tag_int() {
            if rest.len() < 8 {
                None
            } else {
                let x = le_value(rest.subrange(0, 8)) as u64;
                if tag == tag_uint() {
                    Some((FieldValue::UInt(x), 9))
                } else {
                    Some((FieldValue::Int(x as i64), 9))
                }
            }
        } else if tag == tag_bool() {
            if rest.len() < 1 || rest[0] > 1 {
                None
            } else {
                Some((FieldValue::Boolean(rest[0] == 1), 2))
            }
        } else if tag == tag_string() || tag == tag_binary() {
            match read_length_prefixed(rest) {
                None => None,
                Some((bytes, n)) => if tag == tag_binary() {
                    Some((FieldValue::Binary(bytes), n + 1))
                } else if valid_utf8(bytes) {
                    Some((FieldValue::String(decode_utf8(bytes)), n + 1))
                } else {
                    None
                },
            }
        } else if tag == tag_null() {
            Some((FieldValue::Null, 1))
        } else {
            None
        }
    }
}

/// `count` fields at the front of `b`, and the number of bytes they take.
pub open spec fn read_fields(b: Seq<u8>, count: nat) -> Option<(Seq<FieldValue>, nat)>
    decreases count,
{
    if count == 0 {
        Some((Seq::empty(), 0))
    } else {
        match read_field(b) {
            None => None,
            Some((v, n)) => match read_fields(b.subrange(n as int, b.len() as int), (count - 1) as nat) {
                None => None,
                Some((vs, m)) => Some((seq![v] + vs, n + m)),
            },
        }
    }
}

/// The record at the front of `b`, and the number of bytes it takes.
pub open spec fn read_record(b: Seq<u8>) -> Option<(RecordValue, nat)> {
    if b.len() < 8 {
        None
    } else {
        match read_fields(b.subrange(8, b.len() as int), le_value(b.subrange(0, 8))) {
            None => None,
            Some((vs, m)) => Some((vs, 8 + m)),
        }
    }
}

proof fn lemma_read_length_prefixed(b: Seq<u8>, rest: Seq<u8>)
    requires
        b.len() <= u64::MAX,
    ensures
        read_length_prefixed(length_prefixed(b) + rest) == Some((b, 8 + b.len())),
{
    let all = length_prefixed(b) + rest;
    lemma_u64_le_round_trip(b.len() as u64);
    assert(all.subrange(0, 8) =~= u64_le(b.len() as u64));
    assert(all.subrange(8, 8 + b.len() as int) =~= b);
}

/// Reading back the encoding of a field gives the field, whatever follows.
pub proof fn lemma_read_field(v: FieldValue, rest: Seq<u8>)
    requires
        field_value_ok(v),
    ensures
        read_field(encode_field(v) + rest) == Some((v, encode_field(v).len())),
{
    let all = encode_field(v) + rest;
    let tail = all.drop_first();
    match v {
        FieldValue::UInt(x) => {
            lemma_u64_le_round_trip(x);
            assert(tail.subrange(0, 8) =~= u64_le(x));
        },
        FieldValue::Int(x) => {
            lemma_u64_le_round_trip(x as u64);
            assert(tail.subrange(0, 8) =~= u64_le(x as u64));
            assert((x as u64) as i64 == x) by (bit_vector);
        },
        FieldValue::Boolean(_) => {},
        FieldValue::String(s) => {
            let bytes = encode_utf8(s);
            assert(tail =~= length_prefixed(bytes) + rest);
            lemma_read_length_prefixed(bytes, rest);
            lemma_u64_le_round_trip(bytes.len() as u64);
        },
        FieldValue::Binary(b) => {
            assert(tail =~= length_prefixed(b) + rest);
            lemma_read_length_prefixed(b, rest);
            lemma_u64_le_round_trip(b.len() as u64);
        },
        FieldValue::Null => {},
    }
}

proof fn lemma_read_fields(fs: Seq<FieldValue>, rest: Seq<u8>)
    requires
        forall|i: int| 0 <= i < fs.len() ==> field_value_ok(#[trigger] fs[i]),
    ensures
        read_fields(encode_fields(fs) + rest, fs.len()) == Some((fs, encode_fields(fs).len())),
    decreases fs.len(),
{
    if fs.len() > 0 {
        let tail = fs.drop_first();
        let after = encode_fields(tail) + rest;
        assert(encode_fields(fs) + rest =~= encode_field(fs[0]) + after);
        lemma_read_field(fs[0], after);
        let all = encode_field(fs[0]) + after;
        assert(all.subrange(encode_field(fs[0]).len() as int, all.len() as int) =~= after);
        assert(forall|i: int| 0 <= i < tail.len() ==> tail[i] == fs[i + 1]);
        lemma_read_fields(tail, rest);
        assert(seq![fs[0]] + tail =~= fs);
    } else {
        assert(fs =~= Seq::<FieldValue>::empty());
    }
}

/// Reading back the encoding of a record gives the record, whatever follows.
pub proof fn lemma_read_record(r: RecordValue, rest: Seq<u8>)
    requires
        record_value_ok(r),
    ensures
        read_record(encode_record(r) + rest) == Some((r, encode_record(r).len())),
{
    let all = encode_record(r) + rest;
    lemma_u64_le_round_trip(r.len() as u64);
    assert(all.subrange(0, 8) =~= u64_le(r.len() as u64));
    assert(all.subrange(8, all.len() as int) =~= encode_fields(r) + rest);
    lemma_read_fields(r, rest);
}

/// Relies on `String::from_utf8`: it accepts exactly the valid UTF-8 byte
/// strings, and keeps the characters they encode.
#[verifier::external_body]
fn string_from_utf8(bytes: Vec<u8>) -> (r: Option<String>)
    ensures
        r is Some <==> valid_utf8(bytes@),
        r matches Some(s) ==> s@ == decode_utf8(bytes@),
{
    String::from_utf8(bytes).ok()
}

/// Whether two byte strings are equal.
fn bytes_eq(x: &Vec<u8>, y: &Vec<u8>) -> (r: bool)
    ensures
        r == (x@ == y@),
{
    if x.len() != y.len() {
        assert(x@.len() != y@.len());
        return false;
    }
    let mut i: usize = 0;
    while i < x.len()
        invariant
            i <= x@.len() == y@.len(),
            forall|k: int| 0 <= k < i ==> x@[k] == y@[k],
        decreases x@.len() - i,
    {
        if x[i] != y[i] {
            assert(x@[i as int] != y@[i as int]);
            return false;
        }
        i = i + 1;
    }
    assert(x@ =~= y@);
    true
}

/// Whether two fields hold the same value.
pub fn field_eq(a: &Field, b: &Field) -> (r: bool)
    ensures
        r == (a.deep_view() == b.deep_view()),
{
    match a {
        Field::UInt(x) => match b {
            Field::UInt(y) => *x == *y,
            _ => false,
        },
        Field::Int(x) => match b {
            Field::Int(y) => *x == *y,
            _ => false,
        },
        Field::Boolean(x) => match b {
            Field::Boolean(y) => *x == *y,
            _ => false,
        },
        Field::String(x) => match b {
            Field::String(y) => x.eq(y),
            _ => false,
        },
        Field::Binary(x) => match b {
            Field::Binary(y) => bytes_eq(x, y),
            _ => false,
        },
        Field::Null => match b {
            Field::Null => true,
            _ => false,
        },
    }
}

/// Whether two records hold the same values.
pub fn record_eq(a: &Record, b: &Record) -> (r: bool)
    ensures
        r == (a.deep_view() == b.deep_view()),
{
    if a.len() != b.len() {
        assert(a.deep_view().len() != b.deep_view().len());
        return false;
    }
    let mut i: usize = 0;
    while i < a.len()
        invariant
            i <= a@.len() == b@.len(),
            forall|k: int| 0 <= k < i ==> a@[k].deep_view() == b@[k].deep_view(),
        decreases a@.len() - i,
    {
        if !field_eq(&a[i], &b[i]) {
            assert(a.deep_view()[i as int] != b.deep_view()[i as int]);
            return false;
        }
        i = i + 1;
    }
    assert(a.deep_view() =~= b.deep_view());
    true
}

/// Appends the encoding of a field.
pub fn push_field(out: &mut Vec<u8>, f: &Field)
    ensures
        final(out)@ == old(out)@ + encode_field(f.deep_view()),
        field_value_ok(f.deep_view()),
{
    let ghost start = out@;
    match f {
        Field::UInt(x) => {
            out.push(0);
            push_u64_le(out, *x);
        },
        Field::Int(x) => {
            out.push(1);
            push_u64_le(out, *x as u64);
        },
        Field::Boolean(b) => {
            out.push(2);
            out.push(if *b { 1 } else { 0 });
        },
        Field::String(s) => {
            let bytes = s.as_str().as_bytes();
            let _n = bytes.len();
            out.push(3);
            push_length_prefixed(out, bytes);
        },
        Field::Binary(b) => {
            let _n = b.len();
            out.push(4);
            push_length_prefixed(out, b.as_slice());
        },
        Field::Null => {
            out.push(5);
        },
    }
    assert(out@ =~= start + encode_field(f.deep_view()));
}

/// Appends the encoding of a record.
pub fn push_record(out: &mut Vec<u8>, r: &Record)
    ensures
        final(out)@ == old(out)@ + encode_record(r.deep_view()),
        record_value_ok(r.deep_view()),
{
    let ghost start = out@;
    let n = r.len();
    push_u64_le(out, n as u64);
    let ghost mid = out@;
    let mut i: usize = 0;
    while i < n
        invariant
            i <= n == r@.len(),
            out@ == mid + encode_fields(r.deep_view().subrange(0, i as int)),
            forall|k: int| 0 <= k < i ==> field_value_ok(#[trigger] r.deep_view()[k]),
        decreases n - i,
    {
        push_field(out, &r[i]);
        proof {
            lemma_encode_fields_push(r.deep_view().subrange(0, i as int), r.deep_view()[i as int]);
            assert(r.deep_view().subrange(0, i as int).push(r.deep_view()[i as int])
                =~= r.deep_view().subrange(0, i + 1));
        }
        i = i + 1;
    }
    assert(r.deep_view().subrange(0, n as int) =~= r.deep_view());
    assert(out@ =~= start + encode_record(r.deep_view()));
}

proof fn lemma_encode_fields_push(fs: Seq<FieldValue>, v: FieldValue)
    ensures
        encode_fields(fs.push(v)) == encode_fields(fs) + encode_field(v),
    decreases fs.len(),
{
    if fs.len() == 0 {
        assert(fs.push(v).drop_first() =~= Seq::<FieldValue>::empty());
        reveal_with_fuel(encode_fields, 2);
        assert(encode_fields(fs.push(v)) =~= encode_fields(fs) + encode_field(v));
    } else {
        lemma_encode_fields_push(fs.drop_first(), v);
        assert(fs.push(v).drop_first() =~= fs.drop_first().push(v));
        assert(encode_fields(fs.push(v)) =~= encode_fields(fs) + encode_field(v));
    }
}

/// Copies `b[from..to]` into a new vector.
pub fn copy_range(b: &[u8], from: usize, to: usize) -> (r: Vec<u8>)
    requires
        from <= to <= b@.len(),
    ensures
        r@ == b@.subrange(from as int, to as int),
{
    let mut r: Vec<u8> = Vec::new();
    let mut i: usize = from;
    while i < to
        invariant
            from <= i <= to <= b@.len(),
            r@ == b@.subrange(from as int, i as int),
        decreases to - i,
    {
        r.push(b[i]);
        i = i + 1;
        assert(r@ =~= b@.subrange(from as int, i as int));
    }
    r
}

/// Reads a length-prefixed byte string at `pos`; returns its bounds.
fn read_length_prefixed_at(b: &[u8], pos: usize) -> (r: Option<(usize, usize)>)
    requires
        pos <= b@.len(),
    ensures
        match r {
            Some((from, to)) => pos <= from <= to <= b@.len() && read_length_prefixed(
                b@.subrange(pos as int, b@.len() as int),
            ) == Some((b@.subrange(from as int, to as int), (to - pos) as nat)),
            None => read_length_prefixed(b@.subrange(pos as int, b@.len() as int)) is None,
        },
{
    let ghost rest = b@.subrange(pos as int, b@.len() as int);
    if b.len() - pos < 8 {
        return None;
    }
    let n = read_u64_le(b, pos);
    assert(rest.subrange(0, 8) =~= b@.subrange(pos as int, pos + 8));
    if ((b.len() - pos - 8) as u64) < n {
        return None;
    }
    let from = pos + 8;
    let to = from + n as usize;
    assert(rest.subrange(8, 8 + n as int) =~= b@.subrange(from as int, to as int));
    Some((from, to))
}

/// Reads the field at `pos`; returns it and the position after it.
pub fn read_field_at(b: &[u8], pos: usize) -> (r: Option<(Field, usize)>)
    requires
        pos <= b@.len(),
    ensures
        match r {
            Some((f, next)) => pos <= next <= b@.len() && read_field(
                b@.subrange(pos as int, b@.len() as int),
            ) == Some((f.deep_view(), (next - pos) as nat)),
            None => read_field(b@.subrange(pos as int, b@.len() as int)) is None,
        },
{
    let ghost all = b@.subrange(pos as int, b@.len() as int);
    if pos >= b.len() {
        return None;
    }
    let tag = b[pos];
    let ghost rest = all.drop_first();
    assert(rest =~= b@.subrange(pos + 1, b@.len() as int));
    if tag == 0 || tag == 1 {
        if b.len() - (pos + 1) < 8 {
            return None;
        }
        let x = read_u64_le(b, pos + 1);
        assert(rest.subrange(0, 8) =~= b@.subrange(pos + 1, pos + 9));
        if tag == 0 {
            Some((Field::UInt(x), pos + 9))
        } else {
            Some((Field::Int(x as i64), pos + 9))
        }
    } else if tag == 2 {
        if b.len() - (pos + 1) < 1 || b[pos + 1] > 1 {
            return None;
        }
        Some((Field::Boolean(b[pos + 1] == 1), pos + 2))
    } else if tag == 3 || tag == 4 {
        match read_length_prefixed_at(b, pos + 1) {
            None => None,
            Some((from, to)) => {
                let bytes = copy_range(b, from, to);
                if tag == 4 {
                    Some((Field::Binary(bytes), to))
                } else {
                    match string_from_utf8(bytes) {
                        Some(s) => Some((Field::String(s), to)),
                        None => None,
                    }
                }
            },
        }
    } else if tag == 5 {
        Some((Field::Null, pos + 1))
    } else {
        None
    }
}

/// Reads the record at `pos`; returns it and the position after it.
pub fn read_record_at(b: &[u8], pos: usize) -> (r: Option<(Record, usize)>)
    requires
        pos <= b@.len(),
    ensures
        match r {
            Some((rec, next)) => pos <= next <= b@.len() && read_record(
                b@.subrange(pos as int, b@.len() as int),
            ) == Some((rec.deep_view(), (next - pos) as nat)),
            None => read_record(b@.subrange(pos as int, b@.len() as int)) is None,
        },
{
    let ghost all = b@.subrange(pos as int, b@.len() as int);
    if b.len() - pos < 8 {
        return None;
    }
    let count = read_u64_le(b, pos);
    assert(all.subrange(0, 8) =~= b@.subrange(pos as int, pos + 8));
    let ghost body = all.subrange(8, all.len() as int);
    assert(count as nat == le_value(all.subrange(0, 8)));
    let start = pos + 8;
    assert(body =~= b@.subrange(start as int, b@.len() as int));
    let mut fields: Vec<Field> = Vec::new();
    let mut cur = start;
    let mut k: u64 = 0;
    while k < count
        invariant
            start <= cur <= b@.len(),
            k <= count,
            body == b@.subrange(start as int, b@.len() as int),
            all == b@.subrange(pos as int, b@.len() as int),
            all.len() >= 8,
            body == all.subrange(8, all.len() as int),
            count as nat == le_value(all.subrange(0, 8)),
            read_fields(body, count as nat) == (match read_fields(
                b@.subrange(cur as int, b@.len() as int),
                (count - k) as nat,
            ) {
                None => None,
                Some((vs, m)) => Some((fields.deep_view() + vs, ((cur - start) + m) as nat)),
            }),
        decreases count - k,
    {
        let ghost here = b@.subrange(cur as int, b@.len() as int);
        match read_field_at(b, cur) {
            None => {
                assert(read_fields(here, (count - k) as nat) is None);
                assert(read_fields(body, count as nat) is None);
                assert(read_record(all) is None);
                return None;
            },
            Some((f, next)) => {
                let ghost old_fields = fields.deep_view();
                let ghost n = (next - cur) as nat;
                assert(here.subrange(n as int, here.len() as int) =~= b@.subrange(
                    next as int,
                    b@.len() as int,
                ));
                fields.push(f);
                assert(fields.deep_view() =~= old_fields.push(f.deep_view()));
                assert forall|vs: Seq<FieldValue>|
                    old_fields + (seq![f.deep_view()] + vs) == fields.deep_view() + vs by {
                    assert(old_fields + (seq![f.deep_view()] + vs) =~= fields.deep_view() + vs);
                }
                cur = next;
                k = k + 1;
            },
        }
    }
    assert(read_fields(b@.subrange(cur as int, b@.len() as int), 0) == Some((Seq::<FieldValue>::empty(), 0nat)));
    assert(fields.deep_view() + Seq::<FieldValue>::empty() =~= fields.deep_view());
    Some((fields, cur))
}

/// The encodings of `rs`, one after the other.
pub open spec fn encode_records(rs: Seq<RecordValue>) -> Seq<u8>
    decreases rs.len(),
{
    if rs.len() == 0 {
        Seq::empty()
    } else {
        encode_record(rs[0]) + encode_records(rs.drop_first())
    }
}

/// The records that fill `b` exactly, if it holds whole records only.
pub open spec fn read_records(b: Seq<u8>) -> Option<Seq<RecordValue>>
    decreases b.len(),
{
    if b.len() == 0 {
        Some(Seq::empty())
    } else {
        match read_record(b) {
            None => None,
            Some((r, n)) => if 0 < n <= b.len() {
                match read_records(b.subrange(n as int, b.len() as int)) {
                    None => None,
                    Some(rs) => Some(seq![r] + rs),
                }
            } else {
                None
            },
        }
    }
}

/// Reading back the encoding of records gives the records.
pub proof fn lemma_read_records(rs: Seq<RecordValue>)
    requires
        forall|i: int| 0 <= i < rs.len() ==> record_value_ok(#[trigger] rs[i]),
    ensures
        read_records(encode_records(rs)) == Some(rs),
    decreases rs.len(),
{
    if rs.len() > 0 {
        let tail = rs.drop_first();
        let after = encode_records(tail);
        let all = encode_records(rs);
        lemma_read_record(rs[0], after);
        lemma_u64_le_round_trip(rs[0].len() as u64);
        assert(all.subrange(encode_record(rs[0]).len() as int, all.len() as int) =~= after);
        assert(forall|i: int| 0 <= i < tail.len() ==> tail[i] == rs[i + 1]);
        lemma_read_records(tail);
        assert(seq![rs[0]] + tail =~= rs);
    } else {
        assert(rs =~= Seq::<RecordValue>::empty());
    }
}

pub proof fn lemma_encode_records_push(rs: Seq<RecordValue>, r: RecordValue)
    ensures
        encode_records(rs.push(r)) == encode_records(rs) + encode_record(r),
    decreases rs.len(),
{
    if rs.len() == 0 {
        assert(rs.push(r).drop_first() =~= Seq::<RecordValue>::empty());
        reveal_with_fuel(encode_records, 2);
        assert(encode_records(rs.push(r)) =~= encode_records(rs) + encode_record(r));
    } else {
        lemma_encode_records_push(rs.drop_first(), r);
        assert(rs.push(r).drop_first() =~= rs.drop_first().push(r));
        assert(encode_records(rs.push(r)) =~= encode_records(rs) + encode_record(r));
    }
}

/// A copy of a field.
pub fn clone_field(f: &Field) -> (r: Field)
    ensures
        r.deep_view() == f.deep_view(),
{
    match f {
        Field::UInt(x) => Field::UInt(*x),
        Field::Int(x) => Field::Int(*x),
        Field::Boolean(b) => Field::Boolean(*b),
        Field::String(s) => Field::String(s.clone()),
        Field::Binary(b) => {
            let c = copy_range(b.as_slice(), 0, b.len());
            assert(c@ =~= b@);
            Field::Binary(c)
        },
        Field::Null => Field::Null,
    }
}

/// A copy of a record.
pub fn clone_record(r: &Record) -> (c: Record)
    ensures
        c.deep_view() == r.deep_view(),
{
    let mut c: Vec<Field> = Vec::new();
    let mut i: usize = 0;
    while i < r.len()
        invariant
            i <= r@.len(),
            c.deep_view() =~= r.deep_view().subrange(0, i as int),
        decreases r@.len() - i,
    {
        let ghost before = c.deep_view();
        let f = clone_field(&r[i]);
        c.push(f);
        assert(c.deep_view() =~= before.push(r.deep_view()[i as int]));
        i = i + 1;
    }
    assert(r.deep_view().subrange(0, r@.len() as int) =~= r.deep_view());
    c
}

/// The records that `bytes` holds, if it holds whole, well-formed records
/// only.
pub fn decode_records(bytes: &[u8]) -> (r: Option<Vec<Record>>)
    ensures
        match read_records(bytes@) {
            Some(rs) => r matches Some(v) && v.deep_view() == rs,
            None => r is None,
        },
{
    let mut decoded: Vec<Record> = Vec::new();
    let n = bytes.len();
    let mut pos: usize = 0;
    assert(bytes@.subrange(0, n as int) =~= bytes@);
    assert(decoded.deep_view() =~= Seq::<RecordValue>::empty());
    assert forall|rs: Seq<RecordValue>| decoded.deep_view() + rs == rs by {
        assert(decoded.deep_view() + rs =~= rs);
    }
    while pos < n
        invariant
            pos <= n == bytes@.len(),
            read_records(bytes@) == (match read_records(bytes@.subrange(pos as int, n as int)) {
                None => None,
                Some(rs) => Some(decoded.deep_view() + rs),
            }),
        decreases n - pos,
    {
        let ghost here = bytes@.subrange(pos as int, n as int);
        match read_record_at(bytes, pos) {
            None => {
                assert(read_records(here) is None);
                return None;
            },
            Some((rec, next)) => {
                let ghost old_decoded = decoded.deep_view();
                let ghost k = (next - pos) as nat;
                assert(k >= 8);
                assert(here.subrange(k as int, here.len() as int) =~= bytes@.subrange(
                    next as int,
                    n as int,
                ));
                decoded.push(rec);
                assert(decoded.deep_view() =~= old_decoded.push(rec.deep_view()));
                assert forall|rs: Seq<RecordValue>|
                    old_decoded + (seq![rec.deep_view()] + rs) == decoded.deep_view() + rs by {
                    assert(old_decoded + (seq![rec.deep_view()] + rs) =~= decoded.deep_view() + rs);
                }
                pos = next;
            },
        }
    }
    assert(bytes@.subrange(n as int, n as int) =~= Seq::<u8>::empty());
    assert(decoded.deep_view() + Seq::<RecordValue>::empty() =~= decoded.deep_view());
    Some(decoded)
}

} // verus!
