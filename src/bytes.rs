use vstd::prelude::*;

verus! {

/// `256^n`.
pub open spec fn pow256(n: nat) -> nat
    decreases n,
{
    if n == 0 {
        1
    } else {
        256 * pow256((n - 1) as nat)
    }
}

/// The unsigned little-endian integer held by `s`.
pub open spec fn le_uint(s: Seq<u8>) -> nat
    decreases s.len(),
{
    if s.len() == 0 {
        0
    } else {
        s[0] as nat + 256 * le_uint(s.drop_first())
    }
}

/// The two's-complement little-endian integer held by `s`.
pub open spec fn le_int(s: Seq<u8>) -> int {
    let u = le_uint(s);
    if s.len() > 0 && u >= pow256(s.len()) / 2 {
        u - pow256(s.len())
    } else {
        u as int
    }
}

pub proof fn lemma_pow256_values()
    ensures
        pow256(0) == 1,
        pow256(1) == 256,
        pow256(2) == 65536,
        pow256(4) == 4294967296,
        pow256(8) == 18446744073709551616,
{
    reveal_with_fuel(pow256, 9);
}

pub proof fn lemma_pow256_pos(n: nat)
    ensures
        pow256(n) >= 1,
    decreases n,
{
    if n > 0 {
        lemma_pow256_pos((n - 1) as nat);
    }
}

pub proof fn lemma_le_uint_bound(s: Seq<u8>)
    ensures
        le_uint(s) < pow256(s.len()),
    decreases s.len(),
{
    if s.len() > 0 {
        lemma_le_uint_bound(s.drop_first());
        assert(le_uint(s) <= 255 + 256 * le_uint(s.drop_first()));
        assert(le_uint(s.drop_first()) + 1 <= pow256(s.drop_first().len()));
        assert(256 * (le_uint(s.drop_first()) + 1) <= 256 * pow256(s.drop_first().len()))
            by (nonlinear_arith)
            requires
                le_uint(s.drop_first()) + 1 <= pow256(s.drop_first().len()),
        ;
    }
}

/// Reads the unsigned little-endian integer held by `buf[start..start + len]`.
pub fn read_le_uint(buf: &[u8], start: usize, len: usize) -> (r: u64)
    requires
        len <= 8,
        start + len <= buf@.len(),
    ensures
        r as nat == le_uint(buf@.subrange(start as int, start + len)),
{
    let n: usize = buf.len();
    let mut acc: u64 = 0;
    let mut i: usize = len;
    while i > 0
        invariant
            i <= len,
            len <= 8,
            start + len <= buf@.len(),
            n == buf@.len(),
            acc as nat == le_uint(buf@.subrange(start + i, start + len)),
        decreases i,
    {
        let ghost tail = buf@.subrange(start + i, start + len);
        let ghost longer = buf@.subrange(start + i - 1, start + len);
        assert(longer.drop_first() =~= tail);
        proof {
            lemma_le_uint_bound(tail);
            lemma_pow256_values();
            lemma_pow256_monotone(tail.len(), 7);
            lemma_pow256_seven();
        }
        assert(acc * 256 + 255 < 18446744073709551616) by (nonlinear_arith)
            requires
                acc < pow256(7),
                pow256(7) == 72057594037927936,
        ;
        let idx: usize = start + (i - 1);
        let b: u8 = buf[idx];
        acc = acc * 256 + b as u64;
        i = i - 1;
    }
    acc
}

pub proof fn lemma_pow256_monotone(a: nat, b: nat)
    requires
        a <= b,
    ensures
        pow256(a) <= pow256(b),
    decreases b,
{
    if a < b {
        lemma_pow256_monotone(a, (b - 1) as nat);
    }
}

pub proof fn lemma_pow256_seven()
    ensures
        pow256(7) == 72057594037927936,
{
    reveal_with_fuel(pow256, 8);
}

} // verus!
