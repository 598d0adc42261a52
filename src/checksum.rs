//! The check value that closes a stored file: the sum of its bytes, modulo
//! 2^32. Changing any one byte changes it.
use vstd::prelude::*;

use vstd::arithmetic::div_mod::{lemma_add_mod_noop, lemma_fundamental_div_mod, lemma_small_mod};

verus! {

/// The sum of the bytes of `s`.
pub open spec fn byte_sum(s: Seq<u8>) -> nat
    decreases s.len(),
{
    if s.len() == 0 {
        0
    } else {
        byte_sum(s.drop_last()) + s.last() as nat
    }
}

/// The check value of `s`: the sum of its bytes modulo 2^32.
pub open spec fn checksum(s: Seq<u8>) -> nat {
    byte_sum(s) % 0x1_0000_0000
}

/// The check value of `b@`.
pub fn compute_checksum(b: &[u8]) -> (r: u32)
    ensures
        r as nat == checksum(b@),
{
    let mut acc: u64 = 0;
    let mut i: usize = 0;
    while i < b.len()
        invariant
            i <= b@.len(),
            acc as nat == checksum(b@.take(i as int)),
        decreases b@.len() - i,
    {
        let byte = b[i];
        proof {
            let t = b@.take(i + 1);
            assert(t.drop_last() =~= b@.take(i as int));
            assert(byte_sum(t) == byte_sum(b@.take(i as int)) + byte as nat);
            lemma_add_mod_noop(byte_sum(b@.take(i as int)) as int, byte as int, 0x1_0000_0000);
            lemma_small_mod(byte as nat, 0x1_0000_0000);
        }
        acc = (acc + byte as u64) % 0x1_0000_0000;
        i = i + 1;
    }
    assert(b@.take(i as int) =~= b@);
    acc as u32
}

/// Setting one byte changes the sum by the difference it makes.
pub proof fn lemma_byte_sum_update(s: Seq<u8>, i: int, v: u8)
    requires
        0 <= i < s.len(),
    ensures
        byte_sum(s.update(i, v)) == byte_sum(s) - s[i] + v,
    decreases s.len(),
{
    let t = s.update(i, v);
    if i == s.len() - 1 {
        assert(t.drop_last() =~= s.drop_last());
    } else {
        lemma_byte_sum_update(s.drop_last(), i, v);
        assert(t.drop_last() =~= s.drop_last().update(i, v));
    }
}

/// Changing one byte of `s` changes its check value.
pub proof fn lemma_checksum_detects_byte_change(s: Seq<u8>, i: int, v: u8)
    requires
        0 <= i < s.len(),
        v != s[i],
    ensures
        checksum(s.update(i, v)) != checksum(s),
{
    lemma_byte_sum_update(s, i, v);
    let a = byte_sum(s) as int;
    let b = byte_sum(s.update(i, v)) as int;
    let m: int = 0x1_0000_0000;
    lemma_fundamental_div_mod(a, m);
    lemma_fundamental_div_mod(b, m);
    if a % m == b % m {
        let d = b - a;
        assert(d == m * (b / m - a / m)) by (nonlinear_arith)
            requires
                a == m * (a / m) + a % m,
                b == m * (b / m) + b % m,
                a % m == b % m,
                d == b - a,
        ;
        assert(-256 < d < 256 && d != 0);
        assert(false) by (nonlinear_arith)
            requires
                d == m * (b / m - a / m),
                -256 < d < 256,
                d != 0,
                m == 0x1_0000_0000,
        ;
    }
}

} // verus!
