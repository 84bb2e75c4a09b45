//! Little-endian encoding of integers as bytes.
use vstd::prelude::*;
use vstd::arithmetic::power::pow;

verus! {

/// The value of the little-endian bytes `s`.
pub open spec fn le_value(s: Seq<u8>) -> int
    decreases s.len(),
{
    if s.len() == 0 {
        0
    } else {
        s[0] + 256 * le_value(s.drop_first())
    }
}

/// The `n` little-endian bytes of `x`, dropping higher bytes.
pub open spec fn le_bytes(x: int, n: nat) -> Seq<u8>
    decreases n,
{
    if n == 0 {
        Seq::empty()
    } else {
        seq![(x % 256) as u8] + le_bytes(x / 256, (n - 1) as nat)
    }
}

pub proof fn lemma_le_value_bound(s: Seq<u8>)
    ensures
        0 <= le_value(s) < pow(256, s.len()),
    decreases s.len(),
{
    vstd::arithmetic::power::lemma_pow_positive(256, s.len());
    if s.len() > 0 {
        lemma_le_value_bound(s.drop_first());
        vstd::arithmetic::power::lemma_pow_adds(256, 1, (s.len() - 1) as nat);
        vstd::arithmetic::power::lemma_pow1(256);
        assert(s[0] + 256 * le_value(s.drop_first()) < 256 * pow(256, (s.len() - 1) as nat)) by (nonlinear_arith)
            requires
                0 <= s[0] < 256,
                0 <= le_value(s.drop_first()) < pow(256, (s.len() - 1) as nat),
        ;
    }
}

/// Decoding what was encoded gives the value back, for values that fit.
pub proof fn lemma_le_roundtrip(x: int, n: nat)
    requires
        0 <= x < pow(256, n),
    ensures
        le_value(le_bytes(x, n)) == x,
        le_bytes(x, n).len() == n,
    decreases n,
{
    vstd::arithmetic::power::lemma_pow0(256);
    if n > 0 {
        vstd::arithmetic::div_mod::lemma_fundamental_div_mod(x, 256);
        vstd::arithmetic::power::lemma_pow_adds(256, 1, (n - 1) as nat);
        vstd::arithmetic::power::lemma_pow1(256);
        assert(x / 256 < pow(256, (n - 1) as nat)) by {
            vstd::arithmetic::div_mod::lemma_div_is_ordered(x, pow(256, n) - 1, 256);
            vstd::arithmetic::div_mod::lemma_div_by_multiple(pow(256, (n - 1) as nat), 256);
            vstd::arithmetic::mul::lemma_mul_is_commutative(256, pow(256, (n - 1) as nat));
            assert((pow(256, n) - 1) / 256 < pow(256, (n - 1) as nat)) by {
                vstd::arithmetic::div_mod::lemma_fundamental_div_mod(pow(256, n) - 1, 256);
            }
        }
        lemma_le_roundtrip(x / 256, (n - 1) as nat);
        let b = le_bytes(x, n);
        assert(b.drop_first() =~= le_bytes(x / 256, (n - 1) as nat));
    }
}

/// The value of the `n` little-endian bytes of `data` from `start`.
pub fn read_le(data: &[u8], start: usize, n: usize) -> (r: u64)
    requires
        n <= 8,
        start + n <= data@.len(),
    ensures
        r == le_value(data@.subrange(start as int, start + n)),
{
    let ghost s = data@.subrange(start as int, start + n);
    let mut acc: u64 = 0;
    let mut k: usize = n;
    proof {
        assert(s.subrange(n as int, n as int) =~= Seq::<u8>::empty());
    }
    while k > 0
        invariant
            k <= n <= 8,
            start + n <= data.len(),
            s == data@.subrange(start as int, start + n),
            acc == le_value(s.subrange(k as int, n as int)),
        decreases k,
    {
        proof {
            lemma_le_value_bound(s.subrange(k as int, n as int));
            vstd::arithmetic::power::lemma_pow_increases(256, (n - k) as nat, 7);
            assert(pow(256, 7) == 0x100_0000_0000_0000) by {
                reveal_with_fuel(pow, 8);
            }
            assert(s.subrange(k - 1, n as int).drop_first() =~= s.subrange(k as int, n as int));
            assert(s.subrange(k - 1, n as int)[0] == data@[start + k - 1]);
            assert(acc < 0x100_0000_0000_0000);
            assert(256 * acc + 255 <= u64::MAX);
        }
        acc = data[start + k - 1] as u64 + 256 * acc;
        k = k - 1;
    }
    proof {
        assert(s.subrange(0, n as int) =~= s);
    }
    acc
}

/// Append the `n` little-endian bytes of `x` to `out`.
pub fn push_le(out: &mut Vec<u8>, x: u64, n: usize)
    ensures
        final(out)@ == old(out)@ + le_bytes(x as int, n as nat),
{
    let mut v = x;
    let mut k: usize = 0;
    let ghost start = out@;
    while k < n
        invariant
            k <= n,
            out@ + le_bytes(v as int, (n - k) as nat) == start + le_bytes(x as int, n as nat),
        decreases n - k,
    {
        let ghost prev = out@;
        out.push((v % 256) as u8);
        proof {
            let rest = le_bytes(v as int / 256, (n - k - 1) as nat);
            assert(le_bytes(v as int, (n - k) as nat) == seq![(v % 256) as u8] + rest);
            assert(out@ + rest =~= prev + le_bytes(v as int, (n - k) as nat));
        }
        v = v / 256;
        k = k + 1;
    }
    proof {
        assert(out@ + le_bytes(v as int, 0) =~= out@);
    }
}

} // verus!
