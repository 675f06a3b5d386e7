//! Fixed-width little-endian integers and length-prefixed byte strings.
use vstd::prelude::*;

verus! {

/// `256` to the power `n`.
pub open spec fn pow256(n: nat) -> nat
    decreases n,
{
    if n == 0 {
        1
    } else {
        256 * pow256((n - 1) as nat)
    }
}

/// The `n` low bytes of `x`, least significant first.
pub open spec fn le_bytes(x: nat, n: nat) -> Seq<u8>
    decreases n,
{
    if n == 0 {
        Seq::empty()
    } else {
        seq![(x % 256) as u8] + le_bytes(x / 256, (n - 1) as nat)
    }
}

/// The number that little-endian bytes denote.
pub open spec fn le_value(b: Seq<u8>) -> nat
    decreases b.len(),
{
    if b.len() == 0 {
        0
    } else {
        b[0] as nat + 256 * le_value(b.drop_first())
    }
}

/// A `u64` as eight little-endian bytes.
pub open spec fn u64_le(x: u64) -> Seq<u8> {
    le_bytes(x as nat, 8)
}

pub proof fn lemma_le_bytes(x: nat, n: nat)
    ensures
        le_bytes(x, n).len() == n,
        le_value(le_bytes(x, n)) == x % pow256(n),
        pow256(n) > 0,
    decreases n,
{
    if n > 0 {
        let n1 = (n - 1) as nat;
        lemma_le_bytes(x / 256, n1);
        assert(le_bytes(x, n).drop_first() =~= le_bytes(x / 256, n1));
        vstd::arithmetic::div_mod::lemma_breakdown(x as int, 256, pow256(n1) as int);
    }
}

pub proof fn lemma_le_value_bound(b: Seq<u8>)
    ensures
        le_value(b) < pow256(b.len()),
    decreases b.len(),
{
    if b.len() > 0 {
        lemma_le_value_bound(b.drop_first());
        let v = le_value(b.drop_first());
        let p = pow256((b.len() - 1) as nat);
        assert(b[0] as nat + 256 * v < 256 * p) by (nonlinear_arith)
            requires
                v < p,
                b[0] < 256,
        ;
    }
}

proof fn lemma_pow256_8()
    ensures
        pow256(8) == u64::MAX + 1,
{
    reveal_with_fuel(pow256, 9);
}

/// Eight little-endian bytes read back give the `u64` they were made from.
pub proof fn lemma_u64_le_round_trip(x: u64)
    ensures
        u64_le(x).len() == 8,
        le_value(u64_le(x)) == x,
{
    lemma_le_bytes(x as nat, 8);
    lemma_pow256_8();
    vstd::arithmetic::div_mod::lemma_small_mod(x as nat, pow256(8));
}

/// Appends `x` as eight little-endian bytes.
pub fn push_u64_le(out: &mut Vec<u8>, x: u64)
    ensures
        final(out)@ == old(out)@ + u64_le(x),
{
    let ghost start = out@;
    let mut cur: u64 = x;
    let mut k: usize = 0;
    while k < 8
        invariant
            k <= 8,
            out@.len() == start.len() + k,
            out@.subrange(0, start.len() as int) == start,
            u64_le(x) == out@.subrange(start.len() as int, out@.len() as int) + le_bytes(
                cur as nat,
                (8 - k) as nat,
            ),
        decreases 8 - k,
    {
        let ghost before = out@;
        out.push((cur % 256) as u8);
        proof {
            let rest = le_bytes(cur as nat / 256, (8 - k - 1) as nat);
            assert(le_bytes(cur as nat, (8 - k) as nat) == seq![(cur as nat % 256) as u8] + rest);
            assert(out@.subrange(start.len() as int, out@.len() as int) =~= before.subrange(
                start.len() as int,
                before.len() as int,
            ).push((cur % 256) as u8));
            assert(out@.subrange(0, start.len() as int) =~= before.subrange(0, start.len() as int));
        }
        cur = cur / 256;
        k = k + 1;
        assert(u64_le(x) =~= out@.subrange(start.len() as int, out@.len() as int) + le_bytes(
            cur as nat,
            (8 - k) as nat,
        ));
    }
    assert(out@ =~= start + u64_le(x));
}

/// Reads eight little-endian bytes at `pos`.
pub fn read_u64_le(b: &[u8], pos: usize) -> (r: u64)
    requires
        pos + 8 <= b@.len(),
    ensures
        r as nat == le_value(b@.subrange(pos as int, pos + 8)),
{
    let n: usize = b.len();
    let mut acc: u64 = 0;
    let mut i: usize = 8;
    while i > 0
        invariant
            i <= 8,
            n == b@.len(),
            pos + 8 <= b@.len(),
            acc as nat == le_value(b@.subrange(pos + i, pos + 8)),
        decreases i,
    {
        let ghost tail = b@.subrange(pos + i, pos + 8);
        i = i - 1;
        let byte = b[pos + i];
        let ghost s = b@.subrange(pos + i, pos + 8);
        assert(s.drop_first() =~= tail);
        proof {
            lemma_le_value_bound(tail);
            lemma_le_value_bound(s);
            vstd::arithmetic::power::lemma_pow_positive(256, 1);
            assert(pow256(s.len()) <= pow256(8)) by {
                lemma_pow256_monotone(s.len(), 8);
            }
            lemma_pow256_8();
        }
        acc = byte as u64 + 256 * acc;
    }
    acc
}

proof fn lemma_pow256_monotone(a: nat, b: nat)
    requires
        a <= b,
    ensures
        pow256(a) <= pow256(b),
    decreases b,
{
    if a < b {
        lemma_pow256_monotone(a, (b - 1) as nat);
    }
}

/// Bytes as a length in eight little-endian bytes, then the bytes.
pub open spec fn length_prefixed(b: Seq<u8>) -> Seq<u8> {
    u64_le(b.len() as u64) + b
}

/// Appends `b` with its length in front.
pub fn push_length_prefixed(out: &mut Vec<u8>, b: &[u8])
    requires
        b@.len() <= u64::MAX,
    ensures
        final(out)@ == old(out)@ + length_prefixed(b@),
{
    let ghost start = out@;
    push_u64_le(out, b.len() as u64);
    let ghost mid = out@;
    let mut i: usize = 0;
    while i < b.len()
        invariant
            i <= b@.len(),
            out@ == mid + b@.subrange(0, i as int),
        decreases b@.len() - i,
    {
        out.push(b[i]);
        i = i + 1;
        assert(out@ =~= mid + b@.subrange(0, i as int));
    }
    assert(out@ =~= start + length_prefixed(b@));
}

} // verus!
