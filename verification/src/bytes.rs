//! Copying bytes between vectors and slices.

use vstd::prelude::*;

verus! {

/// Appends all of `bytes` to `out`.
pub fn push_all(out: &mut Vec<u8>, bytes: &[u8])
    ensures
        final(out)@ == old(out)@ + bytes@,
{
    let ghost head = out@;
    let mut i: usize = 0;
    while i < bytes.len()
        invariant
            i <= bytes@.len(),
            out@ == head + bytes@.take(i as int),
        decreases bytes.len() - i,
    {
        out.push(bytes[i]);
        assert(bytes@.take(i + 1) =~= bytes@.take(i as int).push(bytes@[i as int]));
        i = i + 1;
    }
    assert(bytes@.take(i as int) =~= bytes@);
}

/// A new vector holding the bytes of `bytes`.
pub fn copy_of(bytes: &[u8]) -> (out: Vec<u8>)
    ensures
        out@ == bytes@,
{
    let mut out: Vec<u8> = Vec::new();
    push_all(&mut out, bytes);
    assert(out@ =~= bytes@);
    out
}

/// `n` copies of `byte`.
pub fn repeated(byte: u8, n: usize) -> (out: Vec<u8>)
    ensures
        out@ == Seq::new(n as nat, |i: int| byte),
{
    let mut out: Vec<u8> = Vec::new();
    let mut i: usize = 0;
    while i < n
        invariant
            i <= n,
            out@ == Seq::new(i as nat, |j: int| byte),
        decreases n - i,
    {
        out.push(byte);
        assert(out@ =~= Seq::new((i + 1) as nat, |j: int| byte));
        i = i + 1;
    }
    out
}

/// `out` with its `n` bytes from `at` on replaced by the `n` bytes of `src` from `from` on.
pub open spec fn spliced(out: Seq<u8>, at: int, src: Seq<u8>, from: int, n: int) -> Seq<u8> {
    out.take(at) + src.subrange(from, from + n) + out.skip(at + n)
}

/// Writes the `n` bytes of `src` from `from` on into `out` at `at`.
pub fn copy_into(out: &mut Vec<u8>, at: usize, src: &[u8], from: usize, n: usize)
    requires
        at + n <= old(out)@.len(),
        from + n <= src@.len(),
    ensures
        final(out)@ == spliced(old(out)@, at as int, src@, from as int, n as int),
{
    let ghost head = out@;
    let out_len = out.len();
    let src_len = src.len();
    let mut k: usize = 0;
    while k < n
        invariant
            k <= n,
            out_len == head.len(),
            src_len == src@.len(),
            at + n <= head.len(),
            from + n <= src@.len(),
            out@.len() == head.len(),
            forall|j: int|
                0 <= j < out@.len() ==> #[trigger] out@[j] == if at <= j < at + k {
                    src@[from + j - at]
                } else {
                    head[j]
                },
        decreases n - k,
    {
        out.set(at + k, src[from + k]);
        k = k + 1;
    }
    assert(out@ =~= spliced(head, at as int, src@, from as int, n as int));
}

} // verus!
