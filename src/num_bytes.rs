//! Fixed-width integers as big- and little-endian byte strings.
use vstd::prelude::*;
use vstd::arithmetic::div_mod::lemma_fundamental_div_mod_converse;

verus! {

pub open spec fn pow256(n: nat) -> nat
    decreases n,
{
    if n == 0 {
        1
    } else {
        256 * pow256((n - 1) as nat)
    }
}

/// The value of a big-endian byte string.
pub open spec fn be_nat(s: Seq<u8>) -> nat
    decreases s.len(),
{
    if s.len() == 0 {
        0
    } else {
        (be_nat(s.drop_last()) * 256 + s.last()) as nat
    }
}

/// The value of a little-endian byte string.
pub open spec fn le_nat(s: Seq<u8>) -> nat
    decreases s.len(),
{
    if s.len() == 0 {
        0
    } else {
        (s[0] + 256 * le_nat(s.drop_first())) as nat
    }
}

/// The `n` little-endian bytes of `v` (taken modulo 256^n).
pub open spec fn le_bytes(v: nat, n: nat) -> Seq<u8>
    decreases n,
{
    if n == 0 {
        Seq::empty()
    } else {
        seq![(v % 256) as u8] + le_bytes(v / 256, (n - 1) as nat)
    }
}

pub proof fn lemma_pow256_facts(n: nat)
    ensures
        pow256(n) >= 1,
        n == 1 ==> pow256(n) == 0x100,
        n == 2 ==> pow256(n) == 0x1_0000,
        n == 4 ==> pow256(n) == 0x1_0000_0000,
        n == 8 ==> pow256(n) == 0x1_0000_0000_0000_0000,
    decreases n,
{
    if n > 0 {
        lemma_pow256_facts((n - 1) as nat);
        reveal_with_fuel(pow256, 9);
    }
}

pub proof fn lemma_le_bytes_len(v: nat, n: nat)
    ensures
        le_bytes(v, n).len() == n,
    decreases n,
{
    if n > 0 {
        lemma_le_bytes_len(v / 256, (n - 1) as nat);
    }
}

/// Reading back what was written gives the value.
pub proof fn lemma_le_round_trip(v: nat, n: nat)
    requires
        v < pow256(n),
    ensures
        le_nat(le_bytes(v, n)) == v,
        le_bytes(v, n).len() == n,
    decreases n,
{
    lemma_le_bytes_len(v, n);
    if n > 0 {
        let rest = le_bytes(v / 256, (n - 1) as nat);
        assert(v / 256 < pow256((n - 1) as nat));
        lemma_le_round_trip(v / 256, (n - 1) as nat);
        assert((seq![(v % 256) as u8] + rest).drop_first() =~= rest);
    }
}

pub proof fn lemma_le_value_bound(s: Seq<u8>)
    ensures
        le_nat(s) < pow256(s.len()),
{
    lemma_le_bound(s);
}

proof fn lemma_le_bound(s: Seq<u8>)
    ensures
        le_nat(s) < pow256(s.len()),
    decreases s.len(),
{
    if s.len() > 0 {
        lemma_le_bound(s.drop_first());
    }
}

proof fn lemma_be_bound(s: Seq<u8>)
    ensures
        be_nat(s) < pow256(s.len()),
    decreases s.len(),
{
    if s.len() > 0 {
        lemma_be_bound(s.drop_last());
        let p = pow256((s.len() - 1) as nat);
        assert(be_nat(s.drop_last()) * 256 + s.last() < 256 * p) by (nonlinear_arith)
            requires
                be_nat(s.drop_last()) < p,
                s.last() < 256,
        ;
    }
}

/// Reads `n` bytes at `start` as a big-endian integer.
pub fn read_be(data: &[u8], start: usize, n: usize) -> (r: u64)
    requires
        n <= 8,
        start + n <= data@.len(),
    ensures
        r == be_nat(data@.subrange(start as int, start + n)),
{
    let len = data.len();
    let mut v: u64 = 0;
    let mut i: usize = 0;
    proof {
        assert(data@.subrange(start as int, start as int) =~= Seq::<u8>::empty());
        lemma_pow256_facts(8);
    }
    while i < n
        invariant
            i <= n <= 8,
            start + n <= data@.len(),
            len == data@.len(),
            v == be_nat(data@.subrange(start as int, start + i)),
            pow256(8) == 0x1_0000_0000_0000_0000,
        decreases n - i,
    {
        proof {
            let s = data@.subrange(start as int, start + i + 1);
            assert(s.drop_last() =~= data@.subrange(start as int, start + i));
            lemma_be_bound(s);
            assert(pow256(s.len()) <= pow256(8)) by {
                lemma_pow256_mono(s.len(), 8);
            }
            assert(s.last() == data@[start + i]);
            assert(be_nat(s) == v * 256 + data@[start + i]);
            assert(be_nat(s) < pow256(s.len()));
            assert(v * 256 + data@[start + i] < 0x1_0000_0000_0000_0000);
        }
        v = v * 256 + data[start + i] as u64;
        i = i + 1;
    }
    v
}

proof fn lemma_pow256_mono(a: nat, b: nat)
    requires
        a <= b,
    ensures
        pow256(a) <= pow256(b),
    decreases b,
{
    if a < b {
        lemma_pow256_mono(a, (b - 1) as nat);
        lemma_pow256_facts((b - 1) as nat);
    }
}

/// Reads `n` bytes at `start` as a little-endian integer.
pub fn read_le(data: &[u8], start: usize, n: usize) -> (r: u64)
    requires
        n <= 8,
        start + n <= data@.len(),
    ensures
        r == le_nat(data@.subrange(start as int, start + n)),
{
    let len = data.len();
    let mut v: u64 = 0;
    let mut i: usize = n;
    proof {
        assert(data@.subrange(start + n, start + n) =~= Seq::<u8>::empty());
        lemma_pow256_facts(8);
    }
    while i > 0
        invariant
            i <= n <= 8,
            start + n <= data@.len(),
            len == data@.len(),
            v == le_nat(data@.subrange(start + i, start + n)),
            pow256(8) == 0x1_0000_0000_0000_0000,
        decreases i,
    {
        proof {
            let s = data@.subrange(start + i - 1, start + n);
            assert(s.drop_first() =~= data@.subrange(start + i, start + n));
            lemma_le_bound(s);
            lemma_pow256_mono(s.len(), 8);
            assert(s[0] == data@[start + i - 1]);
            assert(le_nat(s) == data@[start + i - 1] + 256 * v);
            assert(le_nat(s) < pow256(s.len()));
            assert(data@[start + i - 1] + 256 * v < 0x1_0000_0000_0000_0000);
        }
        i = i - 1;
        v = data[start + i] as u64 + 256 * v;
    }
    v
}

/// Appends the `n` little-endian bytes of `v`.
pub fn push_le(out: &mut Vec<u8>, v: u64, n: usize)
    requires
        n <= 8,
    ensures
        final(out)@ == old(out)@ + le_bytes(v as nat, n as nat),
{
    let ghost start = old(out)@;
    let mut x: u64 = v;
    let mut i: usize = 0;
    proof {
        assert(start + le_bytes(v as nat, 0) =~= start + Seq::<u8>::empty());
    }
    while i < n
        invariant
            i <= n,
            start + le_bytes(v as nat, n as nat) == out@ + le_bytes(x as nat, (n - i) as nat),
        decreases n - i,
    {
        let ghost before = out@;
        out.push((x % 256) as u8);
        proof {
            let rest = le_bytes((x / 256) as nat, (n - i - 1) as nat);
            assert(le_bytes(x as nat, (n - i) as nat) == seq![(x % 256) as u8] + rest);
            assert(before + (seq![(x % 256) as u8] + rest) =~= out@ + rest);
        }
        x = x / 256;
        i = i + 1;
    }
    proof {
        assert(out@ + le_bytes(x as nat, 0) =~= out@);
    }
}


/// Writing out what was read gives the bytes back.
pub proof fn lemma_le_bytes_of_value(s: Seq<u8>)
    ensures
        le_bytes(le_nat(s), s.len()) == s,
    decreases s.len(),
{
    if s.len() > 0 {
        let rest = s.drop_first();
        let v = le_nat(s);
        lemma_fundamental_div_mod_converse(v as int, 256, le_nat(rest) as int, s[0] as int);
        lemma_le_bytes_of_value(rest);
        assert(le_bytes(v, s.len()) =~= seq![s[0]] + rest);
        assert(seq![s[0]] + rest =~= s);
    }
}

} // verus!
