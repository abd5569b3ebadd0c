//! Encoding of time steps and value changes into the bytes of a value change section.

use vstd::prelude::*;
use crate::signal::FstWriteError;
use crate::varint::{varint_bytes, write_variant_u64, lemma_varint_len_u64};

verus! {

/// The code of a non binary `std_logic` state in a one bit value change, `None` for a character
/// that is not a state. Upper and lower case letters stand for the same state.
pub open spec fn nine_state_code(c: u8) -> Option<u8> {
    if c == 0x78 || c == 0x58 {
        Some(0u8)  // x
    } else if c == 0x7a || c == 0x5a {
        Some(1u8)  // z
    } else if c == 0x68 || c == 0x48 {
        Some(2u8)  // h
    } else if c == 0x75 || c == 0x55 {
        Some(3u8)  // u
    } else if c == 0x77 || c == 0x57 {
        Some(4u8)  // w
    } else if c == 0x6c || c == 0x4c {
        Some(5u8)  // l
    } else if c == 0x2d {
        Some(6u8)  // -
    } else {
        None
    }
}

/// Whether `c` is a `0` or a `1`.
pub open spec fn is_binary(c: u8) -> bool {
    c == 0x30 || c == 0x31
}

/// Whether `c` is one of the nine `std_logic` states (in either case).
pub open spec fn is_std_logic(c: u8) -> bool {
    is_binary(c) || nine_state_code(c) is Some
}

/// Whether `c` is one of the nine `std_logic` states (in either case).
pub fn is_std_logic_char(c: u8) -> (ok: bool)
    ensures
        ok == is_std_logic(c),
{
    c == 0x30 || c == 0x31 || c == 0x78 || c == 0x58 || c == 0x7a || c == 0x5a || c == 0x68
        || c == 0x48 || c == 0x75 || c == 0x55 || c == 0x77 || c == 0x57 || c == 0x6c || c == 0x4c
        || c == 0x2d
}

/// The bytes of a change of a one bit signal to `value`, `delta` time steps after its previous
/// change, or `None` when `value` is no `std_logic` state.
pub open spec fn one_bit_record(delta: nat, value: u8) -> Option<Seq<u8>> {
    if is_binary(value) {
        Some(varint_bytes((delta * 4 + (value - 0x30) * 2) as nat))
    } else {
        match nine_state_code(value) {
            Some(code) => Some(varint_bytes(delta * 16 + code as nat * 2 + 1)),
            None => None,
        }
    }
}

/// Whether every character of `values` is a `0` or a `1`.
pub open spec fn all_binary(values: Seq<u8>) -> bool {
    forall|i: int| 0 <= i < values.len() ==> is_binary(#[trigger] values[i])
}

/// The bit at position `i` of a binary vector, `0` past its end.
pub open spec fn bit_at(values: Seq<u8>, i: int) -> nat {
    if 0 <= i < values.len() && values[i] == 0x31 {
        1
    } else {
        0
    }
}

/// The first `m` bits of the `k`-th group of eight bits, as a number, first bit most significant.
pub open spec fn chunk_prefix(values: Seq<u8>, k: int, m: nat) -> nat
    decreases m,
{
    if m == 0 {
        0
    } else {
        chunk_prefix(values, k, (m - 1) as nat) * 2 + bit_at(values, 8 * k + m - 1)
    }
}

/// The number of bytes that `n` packed bits take.
pub open spec fn packed_len(n: nat) -> nat {
    (n + 7) / 8
}

/// A binary vector packed eight bits to a byte, first bit in the most significant position, the
/// last byte padded with zeros.
pub open spec fn packed_bits(values: Seq<u8>) -> Seq<u8> {
    Seq::new(packed_len(values.len()), |k: int| chunk_prefix(values, k, 8) as u8)
}

/// The bytes of a change of a multi bit signal (or a real) to `values`, `delta` time steps after
/// its previous change: binary vectors are packed, anything else is written as it is.
pub open spec fn multi_bit_record(delta: nat, values: Seq<u8>) -> Seq<u8> {
    if all_binary(values) {
        varint_bytes(delta * 2) + packed_bits(values)
    } else {
        varint_bytes(delta * 2 + 1) + values
    }
}

/// The bytes of a change to `values`, one bit signals and wider ones each in their own encoding.
pub open spec fn value_change_record(delta: nat, values: Seq<u8>) -> Option<Seq<u8>> {
    if values.len() == 1 {
        one_bit_record(delta, values[0])
    } else {
        Some(multi_bit_record(delta, values))
    }
}

proof fn lemma_chunk_prefix_bound(values: Seq<u8>, k: int, m: nat)
    ensures
        chunk_prefix(values, k, m) < pow2_small(m),
    decreases m,
{
    if m > 0 {
        lemma_chunk_prefix_bound(values, k, (m - 1) as nat);
    }
}

/// Two to the power `m`.
pub open spec fn pow2_small(m: nat) -> nat
    decreases m,
{
    if m == 0 {
        1
    } else {
        2 * pow2_small((m - 1) as nat)
    }
}

/// A value change record takes at most ten bytes more than the value.
pub proof fn lemma_record_len(delta: nat, values: Seq<u8>)
    requires
        delta <= u32::MAX,
    ensures
        value_change_record(delta, values) matches Some(r) ==> r.len() <= 10 + values.len(),
{
    lemma_varint_len_u64((delta * 16 + 15) as u64);
    lemma_varint_len_u64((delta * 4 + 2) as u64);
    lemma_varint_len_u64((delta * 2 + 1) as u64);
    lemma_varint_len_u64((delta * 2) as u64);
    if values.len() == 1 {
        let v = values[0];
        if is_binary(v) {
            lemma_varint_len_u64((delta * 4 + (v - 0x30) * 2) as u64);
        } else if let Some(code) = nine_state_code(v) {
            lemma_varint_len_u64((delta * 16 + code * 2 + 1) as u64);
        }
    }
}

/// Appends the change of a one bit signal to `value`, `delta` time steps after its previous
/// change. A character that is no `std_logic` state is refused and nothing is written.
pub fn write_one_bit_signal(output: &mut Vec<u8>, delta: u64, value: u8) -> (res: Result<
    (),
    FstWriteError,
>)
    requires
        delta <= u32::MAX,
    ensures
        match one_bit_record(delta as nat, value) {
            Some(record) => res == Ok::<(), FstWriteError>(()) && final(output)@ == old(output)@ + record,
            None => res == Err::<(), FstWriteError>(FstWriteError::InvalidCharacter(value as char))
                && final(output)@ == old(output)@,
        },
{
    let vli: u64 = if value == 0x30 || value == 0x31 {
        delta * 4 + ((value - 0x30) as u64) * 2
    } else {
        let code: u64 = if value == 0x78 || value == 0x58 {
            0
        } else if value == 0x7a || value == 0x5a {
            1
        } else if value == 0x68 || value == 0x48 {
            2
        } else if value == 0x75 || value == 0x55 {
            3
        } else if value == 0x77 || value == 0x57 {
            4
        } else if value == 0x6c || value == 0x4c {
            5
        } else if value == 0x2d {
            6
        } else {
            return Err(FstWriteError::InvalidCharacter(value as char));
        };
        delta * 16 + code * 2 + 1
    };
    write_variant_u64(output, vli);
    Ok(())
}

/// Appends the change of a multi bit signal (or a real) to `values`, `delta` time steps after its
/// previous change.
pub fn write_multi_bit_signal(output: &mut Vec<u8>, delta: u64, values: &[u8])
    requires
        delta <= u32::MAX,
    ensures
        final(output)@ == old(output)@ + multi_bit_record(delta as nat, values@),
{
    let mut is_digital = true;
    let mut i: usize = 0;
    while i < values.len()
        invariant
            i <= values.len(),
            is_digital == (forall|j: int| 0 <= j < i ==> is_binary(#[trigger] values@[j])),
        decreases values.len() - i,
    {
        if !(values[i] == 0x30 || values[i] == 0x31) {
            is_digital = false;
        }
        i = i + 1;
    }
    assert(is_digital == all_binary(values@));
    if is_digital {
        write_variant_u64(output, delta * 2);
        let ghost head = output@;
        let n = values.len();
        let num_bytes = n / 8 + if n % 8 == 0 { 0 } else { 1 };
        assert(num_bytes == packed_len(n as nat));
        let mut k: usize = 0;
        while k < num_bytes
            invariant
                k <= num_bytes,
                num_bytes == packed_len(n as nat),
                n == values@.len(),
                output@ == head + packed_bits(values@).take(k as int),
            decreases num_bytes - k,
        {
            let mut byte: u8 = 0;
            let mut m: usize = 0;
            while m < 8
                invariant
                    m <= 8,
                    k < num_bytes,
                    num_bytes == packed_len(n as nat),
                    n == values@.len(),
                    byte as nat == chunk_prefix(values@, k as int, m as nat),
                decreases 8 - m,
            {
                proof {
                    lemma_chunk_prefix_bound(values@, k as int, m as nat);
                    reveal_with_fuel(pow2_small, 8);
                }
                let pos = 8 * k + m;
                let bit: u8 = if pos < n && values[pos] == 0x31 {
                    1
                } else {
                    0
                };
                byte = byte * 2 + bit;
                m = m + 1;
            }
            output.push(byte);
            proof {
                assert(packed_bits(values@).take(k + 1) =~= packed_bits(values@).take(k as int).push(byte));
            }
            k = k + 1;
        }
        assert(packed_bits(values@).take(k as int) =~= packed_bits(values@));
    } else {
        write_variant_u64(output, delta * 2 + 1);
        let ghost head = output@;
        let mut i: usize = 0;
        while i < values.len()
            invariant
                i <= values.len(),
                output@ == head + values@.take(i as int),
            decreases values.len() - i,
        {
            output.push(values[i]);
            assert(values@.take(i + 1) =~= values@.take(i as int).push(values@[i as int]));
            i = i + 1;
        }
        assert(values@.take(i as int) =~= values@);
    }
}

/// Appends one entry of a time table: the step from `prev_time` to `current_time`.
pub fn write_time_chain_update(output: &mut Vec<u8>, prev_time: u64, current_time: u64)
    requires
        prev_time <= current_time,
    ensures
        final(output)@ == old(output)@ + varint_bytes((current_time - prev_time) as nat),
{
    write_variant_u64(output, current_time - prev_time);
}

} // verus!
