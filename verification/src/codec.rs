//! Big-endian integer encoding, the byte order of every on-disk field.

use vstd::prelude::*;

verus! {

/// `256^n`.
pub open spec fn pow256(n: nat) -> nat
    decreases n,
{
    if n == 0 {
        1
    } else {
        256 * pow256((n - 1) as nat)
    }
}

/// The unsigned integer that the bytes `s` spell in big-endian order.
pub open spec fn be_value(s: Seq<u8>) -> nat
    decreases s.len(),
{
    if s.len() == 0 {
        0
    } else {
        be_value(s.drop_last()) * 256 + s.last() as nat
    }
}

/// The `n` low-order bytes of `x`, most significant first.
pub open spec fn be_bytes(x: nat, n: nat) -> Seq<u8>
    decreases n,
{
    if n == 0 {
        Seq::empty()
    } else {
        be_bytes(x / 256, (n - 1) as nat).push((x % 256) as u8)
    }
}

/// The 4-byte big-endian encoding of a `u32`.
pub open spec fn be_u32(x: u32) -> Seq<u8> {
    be_bytes(x as nat, 4)
}

/// The 8-byte big-endian encoding of a `u64`.
pub open spec fn be_u64(x: u64) -> Seq<u8> {
    be_bytes(x as nat, 8)
}

pub proof fn lemma_pow256_values()
    ensures
        pow256(4) == 0x1_0000_0000,
        pow256(8) == 0x1_0000_0000_0000_0000,
{
    reveal_with_fuel(pow256, 9);
}

pub proof fn lemma_pow256_pos(n: nat)
    ensures
        pow256(n) >= 1,
    decreases n,
{
    if n > 0 {
        lemma_pow256_pos((n - 1) as nat);
    }
}

pub proof fn lemma_be_bytes_len(x: nat, n: nat)
    ensures
        be_bytes(x, n).len() == n,
    decreases n,
{
    if n > 0 {
        lemma_be_bytes_len(x / 256, (n - 1) as nat);
    }
}

/// The value of `n` bytes is below `256^n`.
pub proof fn lemma_be_value_bound(s: Seq<u8>)
    ensures
        be_value(s) < pow256(s.len()),
    decreases s.len(),
{
    if s.len() > 0 {
        lemma_be_value_bound(s.drop_last());
        let v = be_value(s.drop_last());
        let p = pow256((s.len() - 1) as nat);
        assert(v * 256 + 256 <= p * 256) by (nonlinear_arith)
            requires
                v < p,
        ;
    }
}

/// Decoding an encoding gives back the number, when it fits in `n` bytes.
pub proof fn lemma_be_value_of_bytes(x: nat, n: nat)
    requires
        x < pow256(n),
    ensures
        be_value(be_bytes(x, n)) == x,
    decreases n,
{
    if n > 0 {
        let p = pow256((n - 1) as nat);
        assert(x / 256 < p) by (nonlinear_arith)
            requires
                x < 256 * p,
        ;
        lemma_be_value_of_bytes(x / 256, (n - 1) as nat);
        assert(be_bytes(x, n).drop_last() == be_bytes(x / 256, (n - 1) as nat));
    }
}

/// Encoding the value of a byte string gives back the byte string.
pub proof fn lemma_be_bytes_of_value(s: Seq<u8>)
    ensures
        be_bytes(be_value(s), s.len()) == s,
    decreases s.len(),
{
    if s.len() > 0 {
        let v = be_value(s.drop_last());
        lemma_be_bytes_of_value(s.drop_last());
        assert((v * 256 + s.last() as nat) / 256 == v);
        assert((v * 256 + s.last() as nat) % 256 == s.last() as nat);
        assert(be_bytes(be_value(s), s.len()) =~= s);
    }
}

/// The value of a concatenation: high part shifted, plus the low part.
pub proof fn lemma_be_value_push(s: Seq<u8>, b: u8)
    ensures
        be_value(s.push(b)) == be_value(s) * 256 + b,
{
    assert(s.push(b).drop_last() =~= s);
}

pub proof fn lemma_be_u32_roundtrip(x: u32)
    ensures
        be_u32(x).len() == 4,
        be_value(be_u32(x)) == x,
{
    lemma_be_bytes_len(x as nat, 4);
    lemma_pow256_values();
    lemma_be_value_of_bytes(x as nat, 4);
}

pub proof fn lemma_be_u64_roundtrip(x: u64)
    ensures
        be_u64(x).len() == 8,
        be_value(be_u64(x)) == x,
{
    lemma_be_bytes_len(x as nat, 8);
    lemma_pow256_values();
    lemma_be_value_of_bytes(x as nat, 8);
}

/// Two 4-byte strings with the same value are equal.
pub proof fn lemma_be_value_injective(s: Seq<u8>, t: Seq<u8>)
    requires
        s.len() == t.len(),
        be_value(s) == be_value(t),
    ensures
        s == t,
{
    lemma_be_bytes_of_value(s);
    lemma_be_bytes_of_value(t);
}

/// Appends the big-endian bytes of `x` (`n` bytes) to `out`.
fn push_be(out: &mut Vec<u8>, x: u64, n: usize)
    requires
        n <= 8,
    ensures
        final(out)@ == old(out)@ + be_bytes(x as nat, n as nat),
    decreases n,
{
    if n > 0 {
        push_be(out, x / 256, n - 1);
        out.push((x % 256) as u8);
        assert(be_bytes(x as nat, n as nat) == be_bytes((x / 256) as nat, (n - 1) as nat).push(
            (x % 256) as u8,
        ));
    }
}

/// Appends the 4-byte big-endian encoding of `x`.
pub fn push_u32_be(out: &mut Vec<u8>, x: u32)
    ensures
        final(out)@ == old(out)@ + be_u32(x),
{
    push_be(out, x as u64, 4);
}

/// Appends the 8-byte big-endian encoding of `x`.
pub fn push_u64_be(out: &mut Vec<u8>, x: u64)
    ensures
        final(out)@ == old(out)@ + be_u64(x),
{
    push_be(out, x, 8);
}

/// Reads `n` big-endian bytes at `off`.
fn read_be(s: &[u8], off: usize, n: usize) -> (v: u64)
    requires
        n <= 8,
        off + n <= s@.len(),
    ensures
        v == be_value(s@.subrange(off as int, off + n)),
{
    let mut v: u64 = 0;
    let mut i: usize = 0;
    let len = s.len();
    proof {
        lemma_pow256_values();
        assert(s@.subrange(off as int, off as int) =~= Seq::<u8>::empty());
    }
    while i < n
        invariant
            i <= n <= 8,
            off + n <= s@.len(),
            len == s@.len(),
            v == be_value(s@.subrange(off as int, off + i)),
            v < pow256(i as nat),
            pow256(8) == 0x1_0000_0000_0000_0000,
        decreases n - i,
    {
        let b = s[off + i];
        proof {
            lemma_pow256_mono(i as nat + 1, 8);
            let p = pow256(i as nat);
            assert(v * 256 + b < pow256(i as nat + 1)) by (nonlinear_arith)
                requires
                    v < p,
                    b < 256,
                    pow256(i as nat + 1) == 256 * p,
            ;
            assert(s@.subrange(off as int, off + i + 1) =~= s@.subrange(off as int, off + i).push(
                b,
            ));
            lemma_be_value_push(s@.subrange(off as int, off + i), b);
        }
        v = v * 256 + b as u64;
        i = i + 1;
    }
    v
}

pub proof fn lemma_pow256_mono(a: nat, b: nat)
    requires
        a <= b,
    ensures
        pow256(a) <= pow256(b),
    decreases b,
{
    if a < b {
        lemma_pow256_mono(a, (b - 1) as nat);
        lemma_pow256_pos((b - 1) as nat);
    }
}

/// Reads a 4-byte big-endian `u32` at `off`.
pub fn read_u32_be(s: &[u8], off: usize) -> (v: u32)
    requires
        off + 4 <= s@.len(),
    ensures
        v == be_value(s@.subrange(off as int, off + 4)),
{
    let v = read_be(s, off, 4);
    proof {
        lemma_be_value_bound(s@.subrange(off as int, off + 4));
        lemma_pow256_values();
    }
    v as u32
}

/// Reads an 8-byte big-endian `u64` at `off`.
pub fn read_u64_be(s: &[u8], off: usize) -> (v: u64)
    requires
        off + 8 <= s@.len(),
    ensures
        v == be_value(s@.subrange(off as int, off + 8)),
{
    read_be(s, off, 8)
}

} // verus!

verus! {

/// Appends the bytes of `s` to `out`.
pub fn append_bytes(out: &mut Vec<u8>, s: &[u8])
    ensures
        final(out)@ == old(out)@ + s@,
{
    let mut i: usize = 0;
    while i < s.len()
        invariant
            i <= s@.len(),
            out@ == old(out)@ + s@.subrange(0, i as int),
        decreases s@.len() - i,
    {
        out.push(s[i]);
        assert(s@.subrange(0, i + 1) =~= s@.subrange(0, i as int).push(s@[i as int]));
        i += 1;
    }
    assert(s@.subrange(0, s@.len() as int) =~= s@);
}

/// Cuts `out` to `size` bytes, or pads it with zeros up to `size`.
pub fn fit_vec(out: &mut Vec<u8>, size: usize)
    ensures
        final(out)@ == crate::format::fit_to(old(out)@, size as nat),
{
    if size <= out.len() {
        out.truncate(size);
    } else {
        let ghost start = out@;
        while out.len() < size
            invariant
                out@.len() <= size,
                start.len() < size,
                out@ == start + Seq::new((out@.len() - start.len()) as nat, |i: int| 0u8),
            decreases size - out@.len(),
        {
            out.push(0u8);
            assert(out@ =~= start + Seq::new((out@.len() - start.len()) as nat, |i: int| 0u8));
        }
    }
}

} // verus!
