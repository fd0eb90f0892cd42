//! Big-endian integers as byte sequences.
use vstd::prelude::*;

verus! {

/// `256` raised to `n`.
pub open spec fn pow256(n: nat) -> nat
    decreases n,
{
    if n == 0 {
        1
    } else {
        256 * pow256((n - 1) as nat)
    }
}

/// The `len` low bytes of `n`, most significant first.
pub open spec fn be_bytes(n: nat, len: nat) -> Seq<u8>
    decreases len,
{
    if len == 0 {
        Seq::empty()
    } else {
        be_bytes(n / 256, (len - 1) as nat).push((n % 256) as u8)
    }
}

/// The number that a byte sequence denotes, most significant byte first.
pub open spec fn be_value(s: Seq<u8>) -> nat
    decreases s.len(),
{
    if s.len() == 0 {
        0
    } else {
        be_value(s.drop_last()) * 256 + s.last() as nat
    }
}

pub proof fn lemma_pow256_positive(n: nat)
    ensures
        pow256(n) >= 1,
    decreases n,
{
    if n > 0 {
        lemma_pow256_positive((n - 1) as nat);
    }
}

pub proof fn lemma_be_bytes_len(n: nat, len: nat)
    ensures
        be_bytes(n, len).len() == len,
    decreases len,
{
    if len > 0 {
        lemma_be_bytes_len(n / 256, (len - 1) as nat);
    }
}

/// A byte sequence denotes a number below `256^len`.
pub proof fn lemma_be_value_bound(s: Seq<u8>)
    ensures
        be_value(s) < pow256(s.len()),
    decreases s.len(),
{
    if s.len() > 0 {
        lemma_be_value_bound(s.drop_last());
        let a = be_value(s.drop_last());
        let p = pow256((s.len() - 1) as nat);
        let b = s.last() as nat;
        assert(a * 256 + b < p * 256) by (nonlinear_arith)
            requires
                a < p,
                b < 256,
        ;
    }
}

/// Reading back the bytes of a number gives the number.
pub proof fn lemma_be_round_trip(n: nat, len: nat)
    requires
        n < pow256(len),
    ensures
        be_value(be_bytes(n, len)) == n,
    decreases len,
{
    if len > 0 {
        let p = pow256((len - 1) as nat);
        assert(n / 256 < p) by (nonlinear_arith)
            requires
                n < 256 * p,
        ;
        lemma_be_round_trip(n / 256, (len - 1) as nat);
        let s = be_bytes(n, len);
        assert(s.drop_last() =~= be_bytes(n / 256, (len - 1) as nat));
    }
}

/// Appends the `len` low bytes of `n` to `out`, most significant first.
pub fn push_be(out: &mut Vec<u8>, n: u128, len: usize)
    ensures
        final(out)@ == old(out)@ + be_bytes(n as nat, len as nat),
    decreases len,
{
    if len > 0 {
        push_be(out, n / 256, len - 1);
        out.push((n % 256) as u8);
        proof {
            assert(be_bytes(n as nat, len as nat) == be_bytes((n / 256) as nat, (len - 1) as nat).push(
                (n % 256) as u8,
            ));
        }
    } else {
        assert(old(out)@ + be_bytes(n as nat, 0) =~= old(out)@);
    }
}

/// The number denoted by `len` bytes of `data` from `start`.
pub fn read_be(data: &[u8], start: usize, len: usize) -> (r: u128)
    requires
        start + len <= data@.len(),
        len <= 16,
    ensures
        r as nat == be_value(data@.subrange(start as int, start + len)),
{
    let mut acc: u128 = 0;
    let mut i: usize = 0;
    while i < len
        invariant
            i <= len,
            len <= 16,
            start + len <= data.len(),
            acc as nat == be_value(data@.subrange(start as int, start + i)),
        decreases len - i,
    {
        let ghost prefix = data@.subrange(start as int, start + i);
        let ghost next = data@.subrange(start as int, start + i + 1);
        proof {
            assert(next.drop_last() =~= prefix);
            lemma_be_value_bound(prefix);
            lemma_pow_le(i as nat, 15);
        }
        let b = data[start + i];
        assert(acc * 256 + b < pow256(16)) by {
            lemma_pow_step(i as nat);
            lemma_pow_le((i + 1) as nat, 16);
        }
        proof {
            lemma_pow256_16();
        }
        acc = acc * 256 + b as u128;
        i = i + 1;
    }
    acc
}

proof fn lemma_pow_step(n: nat)
    ensures
        pow256(n + 1) == 256 * pow256(n),
{
}

proof fn lemma_pow_le(a: nat, b: nat)
    requires
        a <= b,
    ensures
        pow256(a) <= pow256(b),
    decreases b,
{
    if a < b {
        lemma_pow_le(a, (b - 1) as nat);
        lemma_pow256_positive((b - 1) as nat);
    }
}

pub proof fn lemma_pow256_16()
    ensures
        pow256(16) == 0x1_0000_0000_0000_0000_0000_0000_0000_0000nat,
        pow256(8) == 0x1_0000_0000_0000_0000nat,
        pow256(4) == 0x1_0000_0000nat,
        pow256(2) == 0x1_0000nat,
{
    reveal_with_fuel(pow256, 17);
}

} // verus!
