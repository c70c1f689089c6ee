//! Fixed-width little-endian integers, as used by the wire frame header.

use vstd::arithmetic::div_mod::{lemma_basic_div, lemma_div_denominator, lemma_div_pos_is_pos};
use vstd::prelude::*;

verus! {

/// Width in bytes of one header field.
pub const WORD_BYTES: usize = 8;

/// `256^i` for the eight byte positions of a 64-bit word.
pub open spec fn byte_weight(i: int) -> int {
    if i == 0 {
        1
    } else if i == 1 {
        0x100
    } else if i == 2 {
        0x1_0000
    } else if i == 3 {
        0x100_0000
    } else if i == 4 {
        0x1_0000_0000
    } else if i == 5 {
        0x100_0000_0000
    } else if i == 6 {
        0x1_0000_0000_0000
    } else {
        0x100_0000_0000_0000
    }
}

/// The eight little-endian bytes of `x`: byte `i` is digit `i` of `x` in base 256.
pub open spec fn le_bytes(x: u64) -> Seq<u8> {
    Seq::new(8, |i: int| ((x as int / byte_weight(i)) % 256) as u8)
}

/// The number whose little-endian digits are the first eight bytes of `s`.
pub open spec fn le_value(s: Seq<u8>) -> int
    recommends
        s.len() >= 8,
{
    s[0] as int * byte_weight(0) + s[1] as int * byte_weight(1) + s[2] as int * byte_weight(2)
        + s[3] as int * byte_weight(3) + s[4] as int * byte_weight(4) + s[5] as int * byte_weight(
        5,
    ) + s[6] as int * byte_weight(6) + s[7] as int * byte_weight(7)
}

/// One step down the digits: dividing by the next weight is dividing once more by 256.
proof fn lemma_next_digit(n: int, w: int)
    requires
        0 <= n,
        0 < w,
    ensures
        n / (w * 256) == (n / w) / 256,
        n / w == (n / w) % 256 + 256 * (n / (w * 256)),
        0 <= n / w,
{
    lemma_div_denominator(n, w, 256);
    lemma_div_pos_is_pos(n, w);
}

/// Decoding an encoded word gives the word back.
pub proof fn lemma_le_value_of_bytes(x: u64)
    ensures
        le_bytes(x).len() == 8,
        le_value(le_bytes(x)) == x,
{
    let n = x as int;
    let b = le_bytes(x);
    let q1 = n / 0x100;
    let q2 = n / 0x1_0000;
    let q3 = n / 0x100_0000;
    let q4 = n / 0x1_0000_0000;
    let q5 = n / 0x100_0000_0000;
    let q6 = n / 0x1_0000_0000_0000;
    let q7 = n / 0x100_0000_0000_0000;
    lemma_next_digit(n, 1);
    lemma_next_digit(n, 0x100);
    lemma_next_digit(n, 0x1_0000);
    lemma_next_digit(n, 0x100_0000);
    lemma_next_digit(n, 0x1_0000_0000);
    lemma_next_digit(n, 0x100_0000_0000);
    lemma_next_digit(n, 0x1_0000_0000_0000);
    lemma_next_digit(n, 0x100_0000_0000_0000);
    assert(n / 0x1_0000_0000_0000_0000 == 0) by {
        lemma_basic_div(n, 0x1_0000_0000_0000_0000);
    }
    assert(n / 1 == n);
    assert(b[0] as int == (n / 1) % 256);
    assert(b[1] as int == q1 % 256);
    assert(b[2] as int == q2 % 256);
    assert(b[3] as int == q3 % 256);
    assert(b[4] as int == q4 % 256);
    assert(b[5] as int == q5 % 256);
    assert(b[6] as int == q6 % 256);
    assert(b[7] as int == q7 % 256);
}

/// Every eight-byte sequence is the encoding of the value it decodes to.
pub proof fn lemma_le_bytes_of_value(s: Seq<u8>)
    requires
        s.len() == 8,
    ensures
        0 <= le_value(s) <= u64::MAX,
        le_bytes(le_value(s) as u64) =~= s,
{
    let v = le_value(s);
    let t7 = s[7] as int;
    let t6 = s[6] as int + 256 * t7;
    let t5 = s[5] as int + 256 * t6;
    let t4 = s[4] as int + 256 * t5;
    let t3 = s[3] as int + 256 * t4;
    let t2 = s[2] as int + 256 * t3;
    let t1 = s[1] as int + 256 * t2;
    assert(v == s[0] as int + 256 * t1);
    assert(0 <= v <= u64::MAX);
    lemma_next_digit(v, 1);
    lemma_next_digit(v, 0x100);
    lemma_next_digit(v, 0x1_0000);
    lemma_next_digit(v, 0x100_0000);
    lemma_next_digit(v, 0x1_0000_0000);
    lemma_next_digit(v, 0x100_0000_0000);
    lemma_next_digit(v, 0x1_0000_0000_0000);
    assert(v / 1 == v);
    assert(v / 0x100 == t1);
    assert(v / 0x1_0000 == t2);
    assert(v / 0x100_0000 == t3);
    assert(v / 0x1_0000_0000 == t4);
    assert(v / 0x100_0000_0000 == t5);
    assert(v / 0x1_0000_0000_0000 == t6);
    assert(v / 0x100_0000_0000_0000 == t7);
    let e = le_bytes(v as u64);
    assert(e[0] == s[0]);
    assert(e[1] == s[1]);
    assert(e[2] == s[2]);
    assert(e[3] == s[3]);
    assert(e[4] == s[4]);
    assert(e[5] == s[5]);
    assert(e[6] == s[6]);
    assert(e[7] == s[7]);
}

/// Appends the eight little-endian bytes of `x` to `out`.
pub fn push_le(out: &mut Vec<u8>, x: u64)
    ensures
        final(out)@ == old(out)@ + le_bytes(x),
{
    out.push((x % 256) as u8);
    out.push(((x / 0x100) % 256) as u8);
    out.push(((x / 0x1_0000) % 256) as u8);
    out.push(((x / 0x100_0000) % 256) as u8);
    out.push(((x / 0x1_0000_0000) % 256) as u8);
    out.push(((x / 0x100_0000_0000) % 256) as u8);
    out.push(((x / 0x1_0000_0000_0000) % 256) as u8);
    out.push(((x / 0x100_0000_0000_0000) % 256) as u8);
    assert(out@ =~= old(out)@ + le_bytes(x));
}

/// Reads the little-endian word that starts at `at`.
pub fn read_le(bytes: &[u8], at: usize) -> (x: u64)
    requires
        at + 8 <= bytes@.len(),
    ensures
        x == le_value(bytes@.subrange(at as int, at + 8)),
{
    let ghost s = bytes@.subrange(at as int, at + 8);
    assert(forall|k: int| 0 <= k < 8 ==> s[k] == bytes@[at + k]);
    let b0: u64 = bytes[at] as u64;
    let b1: u64 = bytes[at + 1] as u64;
    let b2: u64 = bytes[at + 2] as u64;
    let b3: u64 = bytes[at + 3] as u64;
    let b4: u64 = bytes[at + 4] as u64;
    let b5: u64 = bytes[at + 5] as u64;
    let b6: u64 = bytes[at + 6] as u64;
    let b7: u64 = bytes[at + 7] as u64;
    b0 + b1 * 0x100 + b2 * 0x1_0000 + b3 * 0x100_0000 + b4 * 0x1_0000_0000 + b5
        * 0x100_0000_0000 + b6 * 0x1_0000_0000_0000 + b7 * 0x100_0000_0000_0000
}

} // verus!
