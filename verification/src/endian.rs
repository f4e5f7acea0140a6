//! Big-endian encoding of the integers that travel in frames and sector files.

use vstd::arithmetic::div_mod::lemma_div_denominator;
use vstd::prelude::*;

verus! {

/// The eight bytes of `v`, most significant first.
pub open spec fn u64_be(v: u64) -> Seq<u8> {
    seq![
        ((v / 0x100_0000_0000_0000) % 0x100) as u8,
        ((v / 0x1_0000_0000_0000) % 0x100) as u8,
        ((v / 0x100_0000_0000) % 0x100) as u8,
        ((v / 0x1_0000_0000) % 0x100) as u8,
        ((v / 0x100_0000) % 0x100) as u8,
        ((v / 0x1_0000) % 0x100) as u8,
        ((v / 0x100) % 0x100) as u8,
        (v % 0x100) as u8,
    ]
}

/// The number whose big-endian digits in base 256 are the bytes of `s`.
pub open spec fn be_value(s: Seq<u8>) -> nat
    decreases s.len(),
{
    if s.len() == 0 {
        0
    } else {
        be_value(s.drop_last()) * 256 + s.last() as nat
    }
}

/// The sixteen bytes of `v`, most significant first: the high half, then the
/// low half.
pub open spec fn u128_be(v: u128) -> Seq<u8> {
    u64_be((v / 0x1_0000_0000_0000_0000) as u64) + u64_be((v % 0x1_0000_0000_0000_0000) as u64)
}

/// Eight big-endian bytes hold exactly their number.
pub proof fn lemma_be_value_u64(v: u64)
    ensures
        u64_be(v).len() == 8,
        be_value(u64_be(v)) == v,
{
    let s = u64_be(v);
    let s7 = s.drop_last();
    let s6 = s7.drop_last();
    let s5 = s6.drop_last();
    let s4 = s5.drop_last();
    let s3 = s4.drop_last();
    let s2 = s3.drop_last();
    let s1 = s2.drop_last();
    let s0 = s1.drop_last();
    let x = v as int;
    let x7 = x / 0x100;
    let x6 = x / 0x1_0000;
    let x5 = x / 0x100_0000;
    let x4 = x / 0x1_0000_0000;
    let x3 = x / 0x100_0000_0000;
    let x2 = x / 0x1_0000_0000_0000;
    let x1 = x / 0x100_0000_0000_0000;
    lemma_div_denominator(x, 0x100, 0x100);
    lemma_div_denominator(x, 0x1_0000, 0x100);
    lemma_div_denominator(x, 0x100_0000, 0x100);
    lemma_div_denominator(x, 0x1_0000_0000, 0x100);
    lemma_div_denominator(x, 0x100_0000_0000, 0x100);
    lemma_div_denominator(x, 0x1_0000_0000_0000, 0x100);
    assert(x7 / 0x100 == x6);
    assert(x6 / 0x100 == x5);
    assert(x5 / 0x100 == x4);
    assert(x4 / 0x100 == x3);
    assert(x3 / 0x100 == x2);
    assert(x2 / 0x100 == x1);
    assert(be_value(s0) == 0);
    assert(be_value(s1) == x1) by {
        assert(s1.last() == s[0]);
    }
    assert(be_value(s2) == x2) by {
        assert(s2.last() == s[1]);
    }
    assert(be_value(s3) == x3) by {
        assert(s3.last() == s[2]);
    }
    assert(be_value(s4) == x4) by {
        assert(s4.last() == s[3]);
    }
    assert(be_value(s5) == x5) by {
        assert(s5.last() == s[4]);
    }
    assert(be_value(s6) == x6) by {
        assert(s6.last() == s[5]);
    }
    assert(be_value(s7) == x7) by {
        assert(s7.last() == s[6]);
    }
    assert(be_value(s) == x) by {
        assert(s.last() == s[7]);
    }
}

/// Division with remainder determines quotient and remainder.
proof fn lemma_quotient(x: int, d: int, q: int, r: int)
    requires
        d > 0,
        0 <= r < d,
        x == q * d + r,
    ensures
        x / d == q,
        x % d == r,
{
    assert(x / d == q && x % d == r) by (nonlinear_arith)
        requires
            d > 0,
            0 <= r < d,
            x == q * d + r,
    ;
}

/// A number below 2^64 has one big-endian form of eight bytes.
pub proof fn lemma_u64_be_of_value(s: Seq<u8>)
    requires
        s.len() == 8,
    ensures
        be_value(s) <= u64::MAX,
        u64_be(be_value(s) as u64) == s,
{
    let s7 = s.drop_last();
    let s6 = s7.drop_last();
    let s5 = s6.drop_last();
    let s4 = s5.drop_last();
    let s3 = s4.drop_last();
    let s2 = s3.drop_last();
    let s1 = s2.drop_last();
    let s0 = s1.drop_last();
    let v8 = be_value(s) as int;
    let v7 = be_value(s7) as int;
    let v6 = be_value(s6) as int;
    let v5 = be_value(s5) as int;
    let v4 = be_value(s4) as int;
    let v3 = be_value(s3) as int;
    let v2 = be_value(s2) as int;
    let v1 = be_value(s1) as int;
    assert(be_value(s0) == 0);
    assert(v1 == s[0]);
    assert(v2 == v1 * 256 + s[1]);
    assert(v3 == v2 * 256 + s[2]);
    assert(v4 == v3 * 256 + s[3]);
    assert(v5 == v4 * 256 + s[4]);
    assert(v6 == v5 * 256 + s[5]);
    assert(v7 == v6 * 256 + s[6]);
    assert(v8 == v7 * 256 + s[7]);
    lemma_be_value_bound(s);
    lemma_quotient(v8, 0x100, v7, s[7] as int);
    lemma_quotient(v8, 0x1_0000, v6, v8 - v6 * 0x1_0000);
    lemma_quotient(v8, 0x100_0000, v5, v8 - v5 * 0x100_0000);
    lemma_quotient(v8, 0x1_0000_0000, v4, v8 - v4 * 0x1_0000_0000);
    lemma_quotient(v8, 0x100_0000_0000, v3, v8 - v3 * 0x100_0000_0000);
    lemma_quotient(v8, 0x1_0000_0000_0000, v2, v8 - v2 * 0x1_0000_0000_0000);
    lemma_quotient(v8, 0x100_0000_0000_0000, v1, v8 - v1 * 0x100_0000_0000_0000);
    lemma_quotient(v7, 0x100, v6, s[6] as int);
    lemma_quotient(v6, 0x100, v5, s[5] as int);
    lemma_quotient(v5, 0x100, v4, s[4] as int);
    lemma_quotient(v4, 0x100, v3, s[3] as int);
    lemma_quotient(v3, 0x100, v2, s[2] as int);
    lemma_quotient(v2, 0x100, v1, s[1] as int);
    let v = v8 as u64;
    assert(u64_be(v) =~= s);
}

/// Writes `v` in big-endian order.
pub fn u64_to_be_bytes(v: u64) -> (r: [u8; 8])
    ensures
        r@ == u64_be(v),
{
    let r = [
        ((v / 0x100_0000_0000_0000) % 0x100) as u8,
        ((v / 0x1_0000_0000_0000) % 0x100) as u8,
        ((v / 0x100_0000_0000) % 0x100) as u8,
        ((v / 0x1_0000_0000) % 0x100) as u8,
        ((v / 0x100_0000) % 0x100) as u8,
        ((v / 0x1_0000) % 0x100) as u8,
        ((v / 0x100) % 0x100) as u8,
        (v % 0x100) as u8,
    ];
    assert(r@ =~= u64_be(v));
    r
}

/// Reads the eight bytes of `s` from `at` on as a big-endian number.
pub fn u64_from_be_bytes(s: &[u8], at: usize) -> (r: u64)
    requires
        at + 8 <= s.len(),
    ensures
        r == be_value(s@.subrange(at as int, at + 8)),
        u64_be(r) == s@.subrange(at as int, at + 8),
{
    let ghost w = s@.subrange(at as int, at + 8);
    let mut acc: u64 = 0;
    let mut i: usize = 0;
    while i < 8
        invariant
            i <= 8,
            at + 8 <= s.len(),
            w == s@.subrange(at as int, at + 8),
            acc == be_value(w.subrange(0, i as int)),
            i < 8 ==> acc < 0x100_0000_0000_0000,
        decreases 8 - i,
    {
        let b = s[at + i];
        proof {
            let p = w.subrange(0, i + 1);
            assert(p.drop_last() =~= w.subrange(0, i as int));
            assert(p.last() == b);
            lemma_be_value_bound(w.subrange(0, i as int));
            lemma_be_value_bound(p);
        }
        acc = acc * 256 + b as u64;
        i = i + 1;
    }
    proof {
        assert(w.subrange(0, 8) =~= w);
        lemma_u64_be_of_value(w);
    }
    acc
}

/// Writes `v` in big-endian order.
pub fn u128_to_be_bytes(v: u128) -> (r: Vec<u8>)
    ensures
        r@ == u128_be(v),
{
    let hi = u64_to_be_bytes((v / 0x1_0000_0000_0000_0000) as u64);
    let lo = u64_to_be_bytes((v % 0x1_0000_0000_0000_0000) as u64);
    let mut r: Vec<u8> = Vec::new();
    r.extend_from_slice(hi.as_slice());
    r.extend_from_slice(lo.as_slice());
    r
}

/// The number that sixteen big-endian bytes hold.
pub open spec fn be_value_u128(s: Seq<u8>) -> u128 {
    (be_value(s.subrange(0, 8)) * 0x1_0000_0000_0000_0000 + be_value(s.subrange(8, 16))) as u128
}

/// Reads the sixteen bytes of `s` from `at` on as a big-endian number.
pub fn u128_from_be_bytes(s: &[u8], at: usize) -> (r: u128)
    requires
        at + 16 <= s.len(),
    ensures
        r == be_value_u128(s@.subrange(at as int, at + 16)),
        u128_be(r) == s@.subrange(at as int, at + 16),
{
    let hi = u64_from_be_bytes(s, at);
    let lo = u64_from_be_bytes(s, at + 8);
    let r = (hi as u128) * 0x1_0000_0000_0000_0000 + (lo as u128);
    proof {
        let w = s@.subrange(at as int, at + 16);
        lemma_quotient(r as int, 0x1_0000_0000_0000_0000, hi as int, lo as int);
        assert(w.subrange(0, 8) =~= s@.subrange(at as int, at + 8));
        assert(w.subrange(8, 16) =~= s@.subrange(at + 8, at + 16));
        assert(w =~= s@.subrange(at as int, at + 8) + s@.subrange(at + 8, at + 16));
    }
    r
}

/// Sixteen big-endian bytes hold exactly their number.
pub proof fn lemma_be_value_u128(v: u128)
    ensures
        u128_be(v).len() == 16,
        be_value_u128(u128_be(v)) == v,
{
    let hi = (v / 0x1_0000_0000_0000_0000) as u64;
    let lo = (v % 0x1_0000_0000_0000_0000) as u64;
    lemma_be_value_u64(hi);
    lemma_be_value_u64(lo);
    assert(u128_be(v).subrange(0, 8) =~= u64_be(hi));
    assert(u128_be(v).subrange(8, 16) =~= u64_be(lo));
}

/// Bytes of length `n` encode a number below `256^n`, for up to eight bytes.
pub proof fn lemma_be_value_bound(s: Seq<u8>)
    requires
        s.len() <= 8,
    ensures
        s.len() == 0 ==> be_value(s) == 0,
        s.len() == 1 ==> be_value(s) < 0x100,
        s.len() == 2 ==> be_value(s) < 0x1_0000,
        s.len() == 3 ==> be_value(s) < 0x100_0000,
        s.len() == 4 ==> be_value(s) < 0x1_0000_0000,
        s.len() == 5 ==> be_value(s) < 0x100_0000_0000,
        s.len() == 6 ==> be_value(s) < 0x1_0000_0000_0000,
        s.len() == 7 ==> be_value(s) < 0x100_0000_0000_0000,
        s.len() == 8 ==> be_value(s) < 0x1_0000_0000_0000_0000,
    decreases s.len(),
{
    if s.len() > 0 {
        lemma_be_value_bound(s.drop_last());
    }
}

} // verus!
