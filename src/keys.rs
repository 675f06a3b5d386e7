//! Storage keys: zero-padded epoch names, path joining and the key layout
//! of slice objects and processor objects.
use vstd::prelude::*;
use vstd::string::*;

verus! {

/// Width of a formatted epoch id: enough digits for every `u64`.
pub const EPOCH_WIDTH: usize = 20;

/// The decimal digit character for `d < 10`.
pub open spec fn digit_char(d: nat) -> char {
    ((d + 48) as u32) as char
}

/// The `w` least significant decimal digits of `n`, most significant first.
pub open spec fn padded_digits(n: nat, w: nat) -> Seq<char>
    decreases w,
{
    if w == 0 {
        Seq::empty()
    } else {
        padded_digits(n / 10, (w - 1) as nat).push(digit_char(n % 10))
    }
}

/// An epoch id as a 20-digit zero-padded decimal.
pub open spec fn epoch_name(epoch_id: u64) -> Seq<char> {
    padded_digits(epoch_id as nat, 20)
}

fn digit_str(d: u64) -> (r: &'static str)
    requires
        d < 10,
    ensures
        r@ == seq![digit_char(d as nat)],
{
    proof {
        reveal_strlit("0");
        reveal_strlit("1");
        reveal_strlit("2");
        reveal_strlit("3");
        reveal_strlit("4");
        reveal_strlit("5");
        reveal_strlit("6");
        reveal_strlit("7");
        reveal_strlit("8");
        reveal_strlit("9");
    }
    match d {
        0 => "0",
        1 => "1",
        2 => "2",
        3 => "3",
        4 => "4",
        5 => "5",
        6 => "6",
        7 => "7",
        8 => "8",
        _ => "9",
    }
}

/// The decimal digits of `n`, without leading zeros (`0` is `"0"`).
pub open spec fn decimal_digits(n: nat) -> Seq<char>
    decreases n,
{
    if n < 10 {
        seq![digit_char(n)]
    } else {
        decimal_digits(n / 10).push(digit_char(n % 10))
    }
}

/// Appends the digits of `ds` to `out`, last element first.
fn append_digits_reversed(out: &mut String, ds: &Vec<u64>)
    requires
        forall|j: int| 0 <= j < ds@.len() ==> ds@[j] < 10,
    ensures
        final(out)@ == old(out)@ + Seq::new(ds@.len(), |j: int| digit_char(ds@[ds@.len() - 1 - j] as nat)),
{
    let ghost start = out@;
    let mut j: usize = ds.len();
    while j > 0
        invariant
            j <= ds@.len(),
            forall|k: int| 0 <= k < ds@.len() ==> ds@[k] < 10,
            out@ == start + Seq::new((ds@.len() - j) as nat, |k: int| digit_char(ds@[ds@.len() - 1 - k] as nat)),
        decreases j,
    {
        j = j - 1;
        out.append(digit_str(ds[j]));
        assert(out@ =~= start + Seq::new((ds@.len() - j) as nat, |k: int| digit_char(ds@[ds@.len() - 1 - k] as nat)));
    }
}

/// Formats `n` with exactly `width` digits, padded with zeros on the left
/// (higher digits are dropped).
pub fn format_padded(n: u64, width: usize) -> (r: String)
    ensures
        r@ == padded_digits(n as nat, width as nat),
{
    let mut ds: Vec<u64> = Vec::new();
    let mut cur: u64 = n;
    let mut k: usize = 0;
    while k < width
        invariant
            k <= width,
            ds@.len() == k,
            forall|j: int| 0 <= j < ds@.len() ==> ds@[j] < 10,
            padded_digits(n as nat, width as nat) =~= padded_digits(cur as nat, (width - k) as nat)
                + Seq::new(k as nat, |j: int| digit_char(ds@[k - 1 - j] as nat)),
        decreases width - k,
    {
        let ghost old_ds = ds@;
        ds.push(cur % 10);
        proof {
            let rest = Seq::new(k as nat, |j: int| digit_char(old_ds[k - 1 - j] as nat));
            let rest2 = Seq::new((k + 1) as nat, |j: int| digit_char(ds@[k - j] as nat));
            assert(rest2 =~= seq![digit_char(cur as nat % 10)] + rest);
            assert(padded_digits(cur as nat, (width - k) as nat) == padded_digits(
                cur as nat / 10,
                (width - k - 1) as nat,
            ).push(digit_char(cur as nat % 10)));
            assert(padded_digits(cur as nat / 10, (width - k - 1) as nat).push(
                digit_char(cur as nat % 10),
            ) + rest =~= padded_digits(cur as nat / 10, (width - k - 1) as nat) + rest2);
        }
        cur = cur / 10;
        k = k + 1;
    }
    let mut out = String::new();
    append_digits_reversed(&mut out, &ds);
    assert(out@ =~= padded_digits(n as nat, width as nat));
    out
}

/// Formats `n` in decimal without leading zeros.
pub fn format_decimal(n: u64) -> (r: String)
    ensures
        r@ == decimal_digits(n as nat),
{
    let mut ds: Vec<u64> = Vec::new();
    let mut cur: u64 = n;
    ds.push(cur % 10);
    assert(decimal_digits(n as nat) =~= if cur < 10 { seq![] } else { decimal_digits(cur as nat / 10) }
        + Seq::new(1, |j: int| digit_char(ds@[0 - j] as nat)));
    while cur >= 10
        invariant
            ds@.len() >= 1,
            ds@[ds@.len() - 1] == cur % 10,
            forall|j: int| 0 <= j < ds@.len() ==> ds@[j] < 10,
            decimal_digits(n as nat) =~= (if cur < 10 { seq![] } else { decimal_digits(cur as nat / 10) })
                + Seq::new(ds@.len(), |j: int| digit_char(ds@[ds@.len() - 1 - j] as nat)),
        decreases cur,
    {
        let ghost old_ds = ds@;
        cur = cur / 10;
        ds.push(cur % 10);
        proof {
            let rest = Seq::new(old_ds.len(), |j: int| digit_char(old_ds[old_ds.len() - 1 - j] as nat));
            let rest2 = Seq::new(ds@.len(), |j: int| digit_char(ds@[ds@.len() - 1 - j] as nat));
            assert(rest2 =~= seq![digit_char(cur as nat % 10)] + rest);
            if cur < 10 {
                assert(decimal_digits(cur as nat) == seq![digit_char(cur as nat)]);
            } else {
                assert(decimal_digits(cur as nat) == decimal_digits(cur as nat / 10).push(digit_char(cur as nat % 10)));
            }
            assert(decimal_digits(cur as nat) + rest =~= (if cur < 10 { seq![] } else { decimal_digits(cur as nat / 10) }) + rest2);
        }
    }
    let mut out = String::new();
    append_digits_reversed(&mut out, &ds);
    assert(out@ =~= decimal_digits(n as nat));
    out
}

/// Formats an epoch id as its 20-digit storage name.
pub fn format_epoch_id(epoch_id: u64) -> (r: String)
    ensures
        r@ == epoch_name(epoch_id),
{
    format_padded(epoch_id, EPOCH_WIDTH)
}

/// `a` joined to `b` with one `/`: `b` alone when `a` is empty, no second
/// separator when `a` already ends with one.
pub open spec fn path_join(a: Seq<char>, b: Seq<char>) -> Seq<char> {
    if a.len() == 0 {
        b
    } else if a.last() == '/' {
        a + b
    } else {
        a + seq!['/'] + b
    }
}

/// Joins two path components with a forward slash.
pub fn join(a: &str, b: &str) -> (r: String)
    ensures
        r@ == path_join(a@, b@),
{
    proof {
        reveal_strlit("/");
    }
    let n = a.unicode_len();
    if n == 0 {
        String::from_str(b)
    } else if a.get_char(n - 1) == '/' {
        String::from_str(a).concat(b)
    } else {
        String::from_str(a).concat("/").concat(b)
    }
}

pub open spec fn record_store_dir() -> Seq<char> {
    seq!['r', 'e', 'c', 'o', 'r', 'd', '_', 's', 't', 'o', 'r', 'e']
}

/// The prefix under which the record-store slices of a factory live.
pub open spec fn record_store_prefix_of(factory_prefix: Seq<char>) -> Seq<char> {
    path_join(factory_prefix, record_store_dir())
}

/// The key of the slice object written at `epoch_id`.
pub open spec fn slice_key_of(factory_prefix: Seq<char>, epoch_id: u64) -> Seq<char> {
    path_join(record_store_prefix_of(factory_prefix), epoch_name(epoch_id))
}

/// The prefix under which the processor objects of an epoch live.
pub open spec fn processor_prefix_of(factory_prefix: Seq<char>, epoch_id: u64) -> Seq<char> {
    path_join(factory_prefix, epoch_name(epoch_id))
}

/// `factory_prefix/record_store`.
pub fn record_store_prefix(factory_prefix: &str) -> (r: String)
    ensures
        r@ == record_store_prefix_of(factory_prefix@),
{
    proof {
        reveal_strlit("record_store");
    }
    join(factory_prefix, "record_store")
}

/// `factory_prefix/record_store/<epoch>`.
pub fn slice_key(factory_prefix: &str, epoch_id: u64) -> (r: String)
    ensures
        r@ == slice_key_of(factory_prefix@, epoch_id),
{
    let dir = record_store_prefix(factory_prefix);
    let name = format_epoch_id(epoch_id);
    join(dir.as_str(), name.as_str())
}

/// `factory_prefix/<epoch>`.
pub fn processor_prefix(factory_prefix: &str, epoch_id: u64) -> (r: String)
    ensures
        r@ == processor_prefix_of(factory_prefix@, epoch_id),
{
    let name = format_epoch_id(epoch_id);
    join(factory_prefix, name.as_str())
}

pub open spec fn is_digit(c: char) -> bool {
    '0' <= c && c <= '9'
}

/// The number that a string of decimal digits denotes.
pub open spec fn digits_value(s: Seq<char>) -> nat
    decreases s.len(),
{
    if s.len() == 0 {
        0
    } else {
        digits_value(s.drop_last()) * 10 + (s.last() as nat - 48) as nat
    }
}

/// `s` without a leading `+`.
pub open spec fn unsigned_part(s: Seq<char>) -> Seq<char> {
    if s.len() > 0 && s[0] == '+' {
        s.drop_first()
    } else {
        s
    }
}

/// What `u64`'s `FromStr` accepts: an optional `+`, then at least one
/// decimal digit, denoting a value that fits.
pub open spec fn parse_u64_of(s: Seq<char>) -> Option<u64> {
    let t = unsigned_part(s);
    if t.len() > 0 && (forall|i: int| 0 <= i < t.len() ==> is_digit(#[trigger] t[i]))
        && digits_value(t) <= u64::MAX {
        Some(digits_value(t) as u64)
    } else {
        None
    }
}

proof fn lemma_digits_value_grows(s: Seq<char>, i: int)
    requires
        0 <= i <= s.len(),
        forall|k: int| 0 <= k < s.len() ==> is_digit(#[trigger] s[k]),
    ensures
        digits_value(s.subrange(0, i)) <= digits_value(s),
    decreases s.len() - i,
{
    if i < s.len() {
        lemma_digits_value_grows(s, i + 1);
        let p = s.subrange(0, i + 1);
        assert(p.drop_last() =~= s.subrange(0, i));
    } else {
        assert(s.subrange(0, i) =~= s);
    }
}

/// Parses a decimal `u64` as `str::parse` does.
pub fn parse_u64(s: &str) -> (r: Option<u64>)
    ensures
        r == parse_u64_of(s@),
{
    let n = s.unicode_len();
    let mut i: usize = 0;
    if n > 0 && s.get_char(0) == '+' {
        i = 1;
    }
    let start = i;
    let ghost t = s@.subrange(start as int, n as int);
    assert(t =~= unsigned_part(s@));
    if i >= n {
        return None;
    }
    let mut acc: u64 = 0;
    while i < n
        invariant
            start <= i <= n,
            n == s@.len(),
            t == s@.subrange(start as int, n as int),
            t == unsigned_part(s@),
            forall|k: int| 0 <= k < i - start ==> is_digit(#[trigger] t[k]),
            acc as nat == digits_value(t.subrange(0, i - start)),
        decreases n - i,
    {
        let c = s.get_char(i);
        assert(t[i - start] == c);
        if !('0' <= c && c <= '9') {
            assert(!is_digit(t[i - start]));
            assert(parse_u64_of(s@) is None);
            return None;
        }
        let d = (c as u32 - 48) as u64;
        let ghost p = t.subrange(0, i - start + 1);
        assert(p.drop_last() =~= t.subrange(0, i - start));
        if acc > (u64::MAX - d) / 10 {
            proof {
                assert(digits_value(p) > u64::MAX) by (nonlinear_arith)
                    requires
                        digits_value(p) == acc * 10 + d,
                        acc > (u64::MAX - d) / 10,
                        d <= 9,
                ;
                if (forall|k: int| 0 <= k < t.len() ==> is_digit(#[trigger] t[k])) {
                    lemma_digits_value_grows(t, i - start + 1);
                }
                assert(parse_u64_of(s@) is None);
            }
            return None;
        }
        assert(acc * 10 + d <= u64::MAX) by (nonlinear_arith)
            requires
                acc <= (u64::MAX - d) / 10,
                d <= 9,
        ;
        acc = acc * 10 + d;
        i = i + 1;
    }
    assert(t.subrange(0, n - start) =~= t);
    Some(acc)
}

/// The name that follows `dir/` in `key`, if `key` lies directly under `dir`.
pub open spec fn name_under(key: Seq<char>, dir: Seq<char>) -> Option<Seq<char>> {
    if key.len() > dir.len() && key.subrange(0, dir.len() as int) == dir && key[dir.len() as int]
        == '/' {
        Some(key.subrange(dir.len() as int + 1, key.len() as int))
    } else {
        None
    }
}

/// The epoch id that a listed slice key names, if it is one.
pub open spec fn slice_epoch_of(key: Seq<char>, dir: Seq<char>) -> Option<u64> {
    match name_under(key, dir) {
        Some(name) => parse_u64_of(name),
        None => None,
    }
}

/// The name that follows `dir/` in `key`, if `key` lies directly under `dir`.
pub fn name_under_dir(key: &str, dir: &str) -> (r: Option<String>)
    ensures
        match name_under(key@, dir@) {
            Some(name) => r matches Some(s) && s@ == name,
            None => r is None,
        },
{
    let n = key.unicode_len();
    let m = dir.unicode_len();
    if n <= m {
        return None;
    }
    let mut i: usize = 0;
    while i < m
        invariant
            i <= m < n,
            n == key@.len(),
            m == dir@.len(),
            key@.subrange(0, i as int) =~= dir@.subrange(0, i as int),
        decreases m - i,
    {
        if key.get_char(i) != dir.get_char(i) {
            assert(key@.subrange(0, m as int)[i as int] != dir@[i as int]);
            return None;
        }
        i = i + 1;
        assert(key@.subrange(0, i as int) =~= dir@.subrange(0, i as int));
    }
    assert(dir@.subrange(0, m as int) =~= dir@);
    if key.get_char(m) != '/' {
        return None;
    }
    Some(String::from_str(key.substring_char(m + 1, n)))
}

/// Reads the epoch id from a slice key listed under `dir`.
pub fn parse_slice_epoch(key: &str, dir: &str) -> (r: Option<u64>)
    ensures
        r == slice_epoch_of(key@, dir@),
{
    match name_under_dir(key, dir) {
        Some(name) => parse_u64(name.as_str()),
        None => None,
    }
}

/// `10` to the power `w`.
pub open spec fn pow10(w: nat) -> nat
    decreases w,
{
    if w == 0 {
        1
    } else {
        10 * pow10((w - 1) as nat)
    }
}

proof fn lemma_padded_digits(n: nat, w: nat)
    ensures
        padded_digits(n, w).len() == w,
        forall|i: int| 0 <= i < w ==> is_digit(#[trigger] padded_digits(n, w)[i]),
        digits_value(padded_digits(n, w)) == n % pow10(w),
        pow10(w) > 0,
    decreases w,
{
    if w > 0 {
        let w1 = (w - 1) as nat;
        lemma_padded_digits(n / 10, w1);
        let p = padded_digits(n, w);
        assert(p.drop_last() =~= padded_digits(n / 10, w1));
        assert(forall|i: int| 0 <= i < w1 ==> p[i] == padded_digits(n / 10, w1)[i]);
        vstd::arithmetic::div_mod::lemma_breakdown(n as int, 10, pow10(w1) as int);
    }
}

proof fn lemma_pow10_20()
    ensures
        pow10(20) > u64::MAX,
{
    reveal_with_fuel(pow10, 21);
}

/// Reading back a 20-digit epoch name gives the epoch id.
pub proof fn lemma_parse_epoch_name(epoch_id: u64)
    ensures
        parse_u64_of(epoch_name(epoch_id)) == Some(epoch_id),
{
    lemma_padded_digits(epoch_id as nat, 20);
    lemma_pow10_20();
    vstd::arithmetic::div_mod::lemma_small_mod(epoch_id as nat, pow10(20));
    assert(unsigned_part(epoch_name(epoch_id)) == epoch_name(epoch_id));
}

/// The slice key of an epoch, listed under the record-store prefix, gives
/// back that epoch.
pub proof fn lemma_slice_key_epoch(factory_prefix: Seq<char>, epoch_id: u64)
    ensures
        slice_epoch_of(slice_key_of(factory_prefix, epoch_id), record_store_prefix_of(factory_prefix))
            == Some(epoch_id),
        name_under(slice_key_of(factory_prefix, epoch_id), record_store_prefix_of(factory_prefix))
            == Some(epoch_name(epoch_id)),
{
    let dir = record_store_prefix_of(factory_prefix);
    let name = epoch_name(epoch_id);
    let key = slice_key_of(factory_prefix, epoch_id);
    assert(dir.len() > 0 && dir.last() == 'e');
    assert(key =~= dir + seq!['/'] + name);
    assert(key.subrange(0, dir.len() as int) =~= dir);
    assert(key.subrange(dir.len() as int + 1, key.len() as int) =~= name);
    lemma_parse_epoch_name(epoch_id);
}

/// Lexicographic order on character sequences, as object stores list keys.
pub open spec fn lex_lt(a: Seq<char>, b: Seq<char>) -> bool {
    (exists|i: int|
        0 <= i < a.len() && i < b.len() && a.subrange(0, i) == b.subrange(0, i) && #[trigger] a[i]
            < b[i]) || (a.len() < b.len() && a == b.subrange(0, a.len() as int))
}

proof fn lemma_padded_digits_lt(a: nat, b: nat, w: nat) -> (i: int)
    requires
        a < b < pow10(w),
    ensures
        0 <= i < w,
        padded_digits(a, w).subrange(0, i) == padded_digits(b, w).subrange(0, i),
        padded_digits(a, w)[i] < padded_digits(b, w)[i],
    decreases w,
{
    let w1 = (w - 1) as nat;
    lemma_padded_digits(a, w);
    lemma_padded_digits(b, w);
    let pa = padded_digits(a, w);
    let pb = padded_digits(b, w);
    assert(a / 10 < pow10(w1) && b / 10 < pow10(w1)) by (nonlinear_arith)
        requires
            a < b < 10 * pow10(w1),
    ;
    if a / 10 < b / 10 {
        let j = lemma_padded_digits_lt(a / 10, b / 10, w1);
        assert(pa.subrange(0, j) =~= padded_digits(a / 10, w1).subrange(0, j));
        assert(pb.subrange(0, j) =~= padded_digits(b / 10, w1).subrange(0, j));
        j
    } else {
        assert(a / 10 == b / 10 && a % 10 < b % 10) by (nonlinear_arith)
            requires
                a < b,
                a / 10 >= b / 10,
        ;
        assert(pa.subrange(0, w1 as int) =~= pb.subrange(0, w1 as int));
        w1 as int
    }
}

proof fn lemma_lex_lt_same_len(a: Seq<char>, b: Seq<char>, i: int)
    requires
        a.len() == b.len(),
        0 <= i < a.len(),
        a.subrange(0, i) == b.subrange(0, i),
        a[i] < b[i],
    ensures
        lex_lt(a, b),
        !lex_lt(b, a),
{
    assert(lex_lt(a, b));
    if lex_lt(b, a) {
        assert(exists|j: int|
            0 <= j < b.len() && j < a.len() && b.subrange(0, j) == a.subrange(0, j) && #[trigger] b[j]
                < a[j]);
        let j = choose|j: int|
            0 <= j < b.len() && j < a.len() && b.subrange(0, j) == a.subrange(0, j) && #[trigger] b[j]
                < a[j];
        assert(0 <= j < a.len() && b.subrange(0, j) == a.subrange(0, j) && b[j] < a[j]);
        if j < i {
            assert(a.subrange(0, i)[j] == a[j]);
            assert(b.subrange(0, i)[j] == b[j]);
            assert(a.subrange(0, i)[j] == b.subrange(0, i)[j]);
        } else if i < j {
            assert(a.subrange(0, j)[i] == b.subrange(0, j)[i]);
            assert(a[i] == b[i]);
        } else {
            assert(b[i] < a[i]);
        }
        assert(false);
    }
}

/// Object stores list slice keys in lexicographic order; the 20-digit epoch
/// names make that the order of epoch ids.
pub proof fn lemma_slice_keys_ordered(factory_prefix: Seq<char>, a: u64, b: u64)
    ensures
        lex_lt(slice_key_of(factory_prefix, a), slice_key_of(factory_prefix, b)) <==> a < b,
{
    let dir = record_store_prefix_of(factory_prefix);
    let ka = slice_key_of(factory_prefix, a);
    let kb = slice_key_of(factory_prefix, b);
    let c = dir + seq!['/'];
    assert(dir.len() > 0 && dir.last() == 'e');
    assert(ka =~= c + epoch_name(a));
    assert(kb =~= c + epoch_name(b));
    lemma_pow10_20();
    lemma_padded_digits(a as nat, 20);
    lemma_padded_digits(b as nat, 20);
    if a == b {
        assert(!lex_lt(ka, ka));
    } else if a < b {
        let i = lemma_padded_digits_lt(a as nat, b as nat, 20);
        assert(ka.subrange(0, c.len() + i) =~= c + epoch_name(a).subrange(0, i));
        assert(kb.subrange(0, c.len() + i) =~= c + epoch_name(b).subrange(0, i));
        lemma_lex_lt_same_len(ka, kb, c.len() + i);
    } else {
        let i = lemma_padded_digits_lt(b as nat, a as nat, 20);
        assert(ka.subrange(0, c.len() + i) =~= c + epoch_name(a).subrange(0, i));
        assert(kb.subrange(0, c.len() + i) =~= c + epoch_name(b).subrange(0, i));
        lemma_lex_lt_same_len(kb, ka, c.len() + i);
    }
}

} // verus!
