//! Byte-level primitives: big-endian 32-bit integers and byte copies.

use vstd::arithmetic::div_mod::lemma_fundamental_div_mod_converse;
use vstd::prelude::*;
use vstd::slice::slice_subrange;

verus! {

/// The value of four big-endian bytes.
pub open spec fn be32(s: Seq<u8>) -> nat {
    (s[0] as nat) * 16777216 + (s[1] as nat) * 65536 + (s[2] as nat) * 256 + (s[3] as nat)
}

/// The four big-endian bytes of `n` (taken modulo 2^32).
pub open spec fn u32_be(n: nat) -> Seq<u8> {
    seq![
        ((n / 16777216) % 256) as u8,
        ((n / 65536) % 256) as u8,
        ((n / 256) % 256) as u8,
        (n % 256) as u8,
    ]
}

/// Encoding a value below 2^32 and reading it back gives the value.
pub proof fn lemma_be32_of_u32_be(n: nat)
    requires
        n < 4294967296,
    ensures
        u32_be(n).len() == 4,
        be32(u32_be(n)) == n,
{
    let x = n as u32;
    assert(((x / 16777216) % 256) * 16777216 + ((x / 65536) % 256) * 65536 + ((x / 256) % 256)
        * 256 + x % 256 == x) by (bit_vector);
}

/// Reading four bytes and encoding the value gives the bytes back.
pub proof fn lemma_u32_be_of_be32(s: Seq<u8>)
    requires
        s.len() == 4,
    ensures
        be32(s) < 4294967296,
        u32_be(be32(s)) == s,
{
    let (a, b, c, d) = (s[0] as int, s[1] as int, s[2] as int, s[3] as int);
    let v = be32(s) as int;
    lemma_fundamental_div_mod_converse(v, 16777216, a, b * 65536 + c * 256 + d);
    lemma_fundamental_div_mod_converse(v, 65536, a * 256 + b, c * 256 + d);
    lemma_fundamental_div_mod_converse(v, 256, a * 65536 + b * 256 + c, d);
    lemma_fundamental_div_mod_converse(a, 256, 0, a);
    lemma_fundamental_div_mod_converse(a * 256 + b, 256, a, b);
    lemma_fundamental_div_mod_converse(a * 65536 + b * 256 + c, 256, a * 256 + b, c);
    assert(u32_be(be32(s)) =~= s);
}

/// Reads a big-endian `u32` from the first four bytes of `slice`.
pub fn u32_from_bytes(slice: &[u8]) -> (r: u32)
    requires
        slice@.len() >= 4,
    ensures
        r as nat == be32(slice@),
{
    let b1 = slice[0] as u32;
    let b2 = slice[1] as u32;
    let b3 = slice[2] as u32;
    let b4 = slice[3] as u32;
    b1 * 16777216 + b2 * 65536 + b3 * 256 + b4
}

/// The four big-endian bytes of `num`.
pub fn bytes_from_u32(num: u32) -> (r: [u8; 4])
    ensures
        r@ == u32_be(num as nat),
{
    let b1 = ((num / 16777216) % 256) as u8;
    let b2 = ((num / 65536) % 256) as u8;
    let b3 = ((num / 256) % 256) as u8;
    let b4 = (num % 256) as u8;
    let r = [b1, b2, b3, b4];
    assert(r@ =~= u32_be(num as nat));
    r
}

/// Appends `data` to `out`.
pub fn extend_bytes(out: &mut Vec<u8>, data: &[u8])
    ensures
        final(out)@ == old(out)@ + data@,
{
    let mut i: usize = 0;
    while i < data.len()
        invariant
            i <= data@.len(),
            out@ == old(out)@ + data@.subrange(0, i as int),
        decreases data@.len() - i,
    {
        out.push(data[i]);
        i = i + 1;
        assert(data@.subrange(0, i as int) =~= data@.subrange(0, i - 1) + seq![data@[i - 1]]);
    }
    assert(data@.subrange(0, i as int) =~= data@);
}

/// A copy of `s[from..to]`.
pub fn copy_range(s: &[u8], from: usize, to: usize) -> (r: Vec<u8>)
    requires
        from <= to <= s@.len(),
    ensures
        r@ == s@.subrange(from as int, to as int),
{
    let mut out: Vec<u8> = Vec::new();
    extend_bytes(&mut out, slice_subrange(s, from, to));
    assert(out@ =~= s@.subrange(from as int, to as int));
    out
}

} // verus!
