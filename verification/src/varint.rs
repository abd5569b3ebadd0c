//! LEB128 style variable length encoding of unsigned integers, as used throughout the FST format.

use vstd::prelude::*;

verus! {

/// `128` raised to the power `i`: the weight of the `i`-th seven bit group of a varint.
pub open spec fn weight(i: nat) -> nat
    decreases i,
{
    if i == 0 {
        1
    } else {
        128 * weight((i - 1) as nat)
    }
}

/// The bytes that encode `v`: seven bits per byte, least significant group first, with the high
/// bit set on every byte but the last.
pub open spec fn varint_bytes(v: nat) -> Seq<u8>
    decreases v,
{
    if v < 128 {
        seq![v as u8]
    } else {
        seq![((v % 128) + 128) as u8] + varint_bytes(v / 128)
    }
}

/// The value held by the first `n` bytes of `s`, read as seven bit groups.
pub open spec fn varint_sum(s: Seq<u8>, n: nat) -> nat
    decreases n,
{
    if n == 0 {
        0
    } else {
        varint_sum(s, (n - 1) as nat) + (s[n - 1] % 128) as nat * weight((n - 1) as nat)
    }
}

/// `n` is the number of bytes of the varint at the start of `s`: its last byte is the first one
/// whose high bit is clear.
pub open spec fn varint_ends_at(s: Seq<u8>, n: nat) -> bool {
    &&& 1 <= n <= s.len()
    &&& s[n - 1] < 128
    &&& forall|j: int| 0 <= j < n - 1 ==> s[j] >= 128
}

/// A varint that `read_variant_u64` can read: it ends within the first ten bytes.
pub open spec fn has_short_varint(s: Seq<u8>) -> bool {
    exists|n: nat| n <= 10 && #[trigger] varint_ends_at(s, n)
}

proof fn lemma_weight_pos(i: nat)
    ensures
        weight(i) >= 1,
    decreases i,
{
    if i > 0 {
        lemma_weight_pos((i - 1) as nat);
    }
}

proof fn lemma_weight_values()
    ensures
        weight(9) == 0x8000_0000_0000_0000,
        weight(10) == 0x40_0000_0000_0000_0000_u128,
{
    reveal_with_fuel(weight, 11);
}

/// The length of an encoding: one byte per started group of seven bits.
proof fn lemma_varint_len(v: nat, k: nat)
    requires
        k >= 1,
        v < weight(k),
    ensures
        1 <= varint_bytes(v).len() <= k,
    decreases v,
{
    if v >= 128 {
        assert(k >= 2) by {
            if k == 1 {
                assert(weight(1) == 128 * weight(0));
            }
        }
        assert(weight(k) == 128 * weight((k - 1) as nat));
        lemma_varint_len(v / 128, (k - 1) as nat);
    }
}

/// Every `u64` takes at most ten bytes.
pub proof fn lemma_varint_len_u64(v: u64)
    ensures
        1 <= varint_bytes(v as nat).len() <= 10,
{
    lemma_weight_values();
    lemma_varint_len(v as nat, 10);
}

/// The sum over a byte put in front of `t`.
proof fn lemma_varint_sum_prepend(b: u8, t: Seq<u8>, n: nat)
    requires
        n <= t.len(),
    ensures
        varint_sum(seq![b] + t, n + 1) == (b % 128) as nat + 128 * varint_sum(t, n),
    decreases n,
{
    let s = seq![b] + t;
    if n == 0 {
        assert(s[0] == b);
        assert(weight(0) == 1);
        assert(varint_sum(t, 0) == 0);
        assert(varint_sum(s, 0) == 0);
        assert(varint_sum(s, 1) == varint_sum(s, 0) + (s[0] % 128) as nat * weight(0));
    } else {
        lemma_varint_sum_prepend(b, t, (n - 1) as nat);
        assert(s[n as int] == t[n - 1]);
        let x = (t[n - 1] % 128) as nat;
        let w = weight((n - 1) as nat);
        assert(weight(n) == 128 * w);
        assert(varint_sum(s, n + 1) == varint_sum(s, n) + x * weight(n));
        assert(varint_sum(t, n) == varint_sum(t, (n - 1) as nat) + x * w);
        assert(x * (128 * w) == 128 * (x * w)) by (nonlinear_arith);
        assert(128 * (varint_sum(t, (n - 1) as nat) + x * w) == 128 * varint_sum(t, (n - 1) as nat) + 128 * (x * w)) by (nonlinear_arith);
    }
}

/// Decoding what was encoded gives back the value, whatever follows the encoding.
pub proof fn lemma_varint_roundtrip(v: nat, rest: Seq<u8>)
    ensures
        ({
            let s = varint_bytes(v) + rest;
            let n = varint_bytes(v).len();
            &&& varint_ends_at(s, n)
            &&& varint_sum(s, n) == v
        }),
    decreases v,
{
    let s = varint_bytes(v) + rest;
    if v < 128 {
        assert(varint_bytes(v) == seq![v as u8]);
        assert(s[0] == v as u8);
        assert(weight(0) == 1);
        assert(varint_sum(s, 0) == 0);
        assert(varint_sum(s, 1) == varint_sum(s, 0) + (s[0] % 128) as nat * weight(0));
    } else {
        let t = varint_bytes(v / 128) + rest;
        lemma_varint_roundtrip(v / 128, rest);
        let b = ((v % 128) + 128) as u8;
        assert(varint_bytes(v) == seq![b] + varint_bytes(v / 128));
        assert(s =~= seq![b] + t);
        let n = varint_bytes(v / 128).len();
        lemma_varint_sum_prepend(b, t, n);
        assert(b % 128 == v % 128);
        assert(v == v % 128 + 128 * (v / 128));
        assert forall|j: int| 0 <= j < n implies s[j] >= 128 by {
            if j > 0 {
                assert(s[j] == t[j - 1]);
            }
        }
        assert(s[n as int] == t[n - 1]);
        assert(varint_ends_at(s, n + 1));
    }
}

/// Appends the encoding of `value` to `output` and returns its length in bytes.
pub fn write_variant_u64(output: &mut Vec<u8>, value: u64) -> (written: usize)
    ensures
        final(output)@ == old(output)@ + varint_bytes(value as nat),
        written == varint_bytes(value as nat).len(),
        1 <= written <= 10,
{
    proof {
        lemma_varint_len_u64(value);
    }
    let ghost target = old(output)@ + varint_bytes(value as nat);
    let mut v = value;
    let mut written: usize = 0;
    loop
        invariant
            target == old(output)@ + varint_bytes(value as nat),
            output@ + varint_bytes(v as nat) == target,
            written + varint_bytes(v as nat).len() == varint_bytes(value as nat).len(),
            varint_bytes(value as nat).len() <= 10,
        decreases v,
    {
        let low = (v % 128) as u8;
        let next = v / 128;
        if next == 0 {
            output.push(low);
            assert(varint_bytes(v as nat) == seq![low]);
            assert(output@ =~= target);
            return written + 1;
        }
        output.push(low + 128);
        proof {
            assert(output@ + varint_bytes(next as nat) =~= target);
        }
        written = written + 1;
        v = next;
    }
}

/// Reads the varint at the start of `input`, returning its value and its length in bytes.
///
/// A value with more than 64 significant bits is cut down to its low 64 bits.
pub fn read_variant_u64(input: &[u8]) -> (res: (u64, usize))
    requires
        has_short_varint(input@),
    ensures
        varint_ends_at(input@, res.1 as nat),
        res.1 <= 10,
        res.0 as nat == varint_sum(input@, res.1 as nat) % 0x1_0000_0000_0000_0000,
{
    let ghost stop = choose|n: nat| n <= 10 && #[trigger] varint_ends_at(input@, n);
    let mut acc: u128 = 0;
    let mut mult: u128 = 1;
    let mut ii: usize = 0;
    proof {
        lemma_weight_values();
    }
    while ii < 10
        invariant
            ii < stop,
            stop <= 10,
            varint_ends_at(input@, stop),
            acc == varint_sum(input@, ii as nat),
            mult == weight(ii as nat),
            acc < weight(ii as nat),
            weight(9) == 0x8000_0000_0000_0000,
        decreases 10 - ii,
    {
        let byte = input[ii];
        let value = (byte % 128) as u128;
        proof {
            assert(weight((ii + 1) as nat) == 128 * weight(ii as nat));
            lemma_weight_monotone(ii as nat, 9);
            assert(value * mult <= 127 * mult) by (nonlinear_arith)
                requires
                    value < 128,
            ;
        }
        acc = acc + value * mult;
        if byte < 128 {
            let res = acc as u64;
            assert(res == acc % 0x1_0000_0000_0000_0000) by (bit_vector)
                requires
                    res == acc as u64,
            ;
            return (res, ii + 1);
        }
        mult = mult * 128;
        ii = ii + 1;
    }
    proof {
        assert(false);
    }
    (0, 0)
}

proof fn lemma_weight_monotone(i: nat, j: nat)
    requires
        i <= j,
    ensures
        weight(i) <= weight(j),
    decreases j - i,
{
    if i < j {
        lemma_weight_monotone(i, (j - 1) as nat);
        lemma_weight_pos((j - 1) as nat);
    }
}

} // verus!
