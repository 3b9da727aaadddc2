//! Integers as bytes.
use vstd::prelude::*;

verus! {

pub open spec fn pow256(n: nat) -> nat
    decreases n,
{
    if n == 0 {
        1
    } else {
        256 * pow256((n - 1) as nat)
    }
}

/// The lowest `n` bytes of `x`, the lowest first.
pub open spec fn le_bytes(x: nat, n: nat) -> Seq<u8>
    decreases n,
{
    if n == 0 {
        seq![]
    } else {
        seq![(x % 256) as u8] + le_bytes(x / 256, (n - 1) as nat)
    }
}

/// The number that the bytes stand for, the lowest first.
pub open spec fn le_value(s: Seq<u8>) -> nat
    decreases s.len(),
{
    if s.len() == 0 {
        0
    } else {
        s[0] as nat + 256 * le_value(s.drop_first())
    }
}

/// The lowest `n` bytes of `x`, the highest first.
pub open spec fn be_bytes(x: nat, n: nat) -> Seq<u8>
    decreases n,
{
    if n == 0 {
        seq![]
    } else {
        be_bytes(x / 256, (n - 1) as nat).push((x % 256) as u8)
    }
}

/// The number that the bytes stand for, the highest first.
pub open spec fn be_value(s: Seq<u8>) -> nat
    decreases s.len(),
{
    if s.len() == 0 {
        0
    } else {
        256 * be_value(s.drop_last()) + s.last() as nat
    }
}

pub proof fn lemma_le_round_trip(x: nat, n: nat)
    requires
        x < pow256(n),
    ensures
        le_bytes(x, n).len() == n,
        le_value(le_bytes(x, n)) == x,
    decreases n,
{
    if n > 0 {
        lemma_le_round_trip(x / 256, (n - 1) as nat);
        let s = le_bytes(x, n);
        assert(s.drop_first() =~= le_bytes(x / 256, (n - 1) as nat));
        assert(s[0] == (x % 256) as u8);
    }
}

pub proof fn lemma_be_round_trip(x: nat, n: nat)
    requires
        x < pow256(n),
    ensures
        be_bytes(x, n).len() == n,
        be_value(be_bytes(x, n)) == x,
    decreases n,
{
    if n > 0 {
        lemma_be_round_trip(x / 256, (n - 1) as nat);
        let s = be_bytes(x, n);
        assert(s.drop_last() =~= be_bytes(x / 256, (n - 1) as nat));
    }
}

proof fn lemma_le_bound(s: Seq<u8>)
    ensures
        le_value(s) < pow256(s.len()),
    decreases s.len(),
{
    if s.len() > 0 {
        lemma_le_bound(s.drop_first());
    }
}

proof fn lemma_be_bound(s: Seq<u8>)
    ensures
        be_value(s) < pow256(s.len()),
    decreases s.len(),
{
    if s.len() > 0 {
        lemma_be_bound(s.drop_last());
    }
}

pub proof fn lemma_pow256()
    ensures
        pow256(4) == 0x1_0000_0000,
        pow256(8) == 0x1_0000_0000_0000_0000,
{
    reveal_with_fuel(pow256, 9);
}

/// Appends the eight bytes of the number, the lowest first.
pub fn put_le(out: &mut Vec<u8>, x: u64)
    ensures
        final(out)@ == old(out)@ + le_bytes(x as nat, 8),
{
    let mut rest: u64 = x;
    let mut i: usize = 0;
    let ghost before = out@;
    while i < 8
        invariant
            i <= 8,
            out@ + le_bytes(rest as nat, (8 - i) as nat) == before + le_bytes(x as nat, 8),
        decreases 8 - i,
    {
        let ghost earlier = out@;
        out.push((rest % 256) as u8);
        assert(out@ + le_bytes((rest / 256) as nat, (8 - i - 1) as nat) =~= earlier + le_bytes(
            rest as nat,
            (8 - i) as nat,
        ));
        rest = rest / 256;
        i += 1;
    }
    assert(out@ + le_bytes(rest as nat, 0) =~= out@);
}

/// The number in the first eight bytes, the lowest first.
pub fn take_le(s: &[u8], from: usize) -> (r: u64)
    requires
        from + 8 <= s@.len(),
    ensures
        r == le_value(s@.subrange(from as int, from + 8)),
{
    let mut value: u64 = 0;
    let mut i: usize = 8;
    let len: usize = s.len();
    proof {
        lemma_pow256();
        assert(s@.subrange(from + 8, from + 8).len() == 0);
    }
    while i > 0
        invariant
            i <= 8,
            len == s@.len(),
            from + 8 <= len,
            value == le_value(s@.subrange(from + i, from + 8)),
        decreases i,
    {
        i -= 1;
        let byte: u8 = s[from + i];
        proof {
            let part = s@.subrange(from + i, from + 8);
            assert(part.drop_first() =~= s@.subrange(from + i + 1, from + 8));
            assert(part[0] == byte);
            lemma_le_bound(part);
            lemma_pow256_rises(part.len(), 8);
            lemma_pow256();
        }
        value = value * 256 + byte as u64;
    }
    value
}

proof fn lemma_pow256_rises(m: nat, n: nat)
    requires
        m <= n,
    ensures
        pow256(m) <= pow256(n),
    decreases n,
{
    if m < n {
        lemma_pow256_rises(m, (n - 1) as nat);
    }
}

/// The four bytes of the number, the highest first.
pub fn to_be(x: u32) -> (r: Vec<u8>)
    ensures
        r@ == be_bytes(x as nat, 4),
{
    let a: u32 = x / 256;
    let b: u32 = a / 256;
    let c: u32 = b / 256;
    let mut r: Vec<u8> = Vec::new();
    r.push((c % 256) as u8);
    r.push((b % 256) as u8);
    r.push((a % 256) as u8);
    r.push((x % 256) as u8);
    proof {
        reveal_with_fuel(be_bytes, 5);
        assert(r@ =~= be_bytes(x as nat, 4));
    }
    r
}

/// The number in the first four bytes, the highest first.
pub fn take_be(s: &[u8]) -> (r: u32)
    requires
        s@.len() >= 4,
    ensures
        r == be_value(s@.take(4)),
{
    proof {
        let t = s@.take(4);
        reveal_with_fuel(be_value, 5);
        lemma_be_bound(t);
        lemma_pow256();
        assert(t.drop_last().len() == 3);
        assert(t.drop_last().drop_last().len() == 2);
        assert(t.drop_last().drop_last().drop_last().len() == 1);
        assert(t.drop_last().drop_last().drop_last().drop_last().len() == 0);
    }
    ((s[0] as u32 * 256 + s[1] as u32) * 256 + s[2] as u32) * 256 + s[3] as u32
}

} // verus!
