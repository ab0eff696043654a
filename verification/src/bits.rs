//! Whole numbers as double-precision bit patterns: how a count is held by a
//! constraint, so that counts compare bit for bit.

use vstd::prelude::*;
use vstd::arithmetic::power2::{
    lemma2_to64, lemma2_to64_rest, lemma_pow2_adds, lemma_pow2_pos,
    lemma_pow2_strictly_increases, lemma_pow2_unfold, pow2,
};

verus! {

/// Position of the leading binary digit of `n`: the `e` with
/// `2^e <= n < 2^(e+1)`.
pub open spec fn top_bit(n: nat) -> nat
    decreases n,
{
    if n < 2 {
        0
    } else {
        1 + top_bit(n / 2)
    }
}

/// The bit pattern of the double-precision number that stands for the whole
/// number `n`: sign 0, then the exponent `e` of the leading digit plus 1023,
/// then the 52 digits after the leading one. A number of more than 53 digits
/// is rounded to the nearest that fits, a tie to the even one.
pub open spec fn whole_bits(n: nat) -> nat {
    if n == 0 {
        0
    } else {
        let e = top_bit(n);
        if e <= 52 {
            ((1023 + e) * pow2(52) + n * pow2((52 - e) as nat) - pow2(52)) as nat
        } else {
            let d = pow2((e - 52) as nat);
            let up: nat = if 2 * (n % d) > d || (2 * (n % d) == d && (n / d) % 2 == 1) {
                1
            } else {
                0
            };
            ((1023 + e) * pow2(52) + n / d + up - pow2(52)) as nat
        }
    }
}

/// The leading digit of a number between `2^e` and `2^(e+1)` stands at `e`.
pub proof fn lemma_top_bit(n: nat, e: nat)
    requires
        pow2(e) <= n < pow2(e + 1),
    ensures
        top_bit(n) == e,
    decreases e,
{
    lemma2_to64();
    if e == 0 {
        lemma_pow2_unfold(1);
    } else {
        lemma_pow2_unfold(e);
        lemma_pow2_unfold(e + 1);
        lemma_pow2_pos((e - 1) as nat);
        lemma_top_bit(n / 2, (e - 1) as nat);
    }
}

/// The leading digit of `n` stands where `top_bit` says.
pub proof fn lemma_top_bit_bounds(n: nat)
    requires
        n > 0,
    ensures
        pow2(top_bit(n)) <= n < pow2(top_bit(n) + 1),
    decreases n,
{
    lemma2_to64();
    if n >= 2 {
        lemma_top_bit_bounds(n / 2);
        lemma_pow2_unfold(top_bit(n));
        lemma_pow2_unfold(top_bit(n) + 1);
    }
}

/// The bit pattern of a whole number of at most 53 digits, taken apart: the
/// exponent field, and below it the digits after the leading one.
pub proof fn lemma_whole_bits_parts(n: nat)
    requires
        0 < n < pow2(53),
    ensures
        top_bit(n) <= 52,
        whole_bits(n) == (1023 + top_bit(n)) * pow2(52) + (n * pow2((52 - top_bit(n)) as nat)
            - pow2(52)),
        0 <= n * pow2((52 - top_bit(n)) as nat) - pow2(52) < pow2(52),
{
    let e = top_bit(n);
    lemma_top_bit_bounds(n);
    if e > 52 {
        if e > 53 {
            lemma_pow2_strictly_increases(53, e);
        }
    }
    let s = pow2((52 - e) as nat);
    lemma_pow2_pos((52 - e) as nat);
    lemma_pow2_adds(e, (52 - e) as nat);
    lemma_pow2_adds(e + 1, (52 - e) as nat);
    lemma_pow2_unfold(53);
    assert(n * s < pow2(e + 1) * s) by (nonlinear_arith)
        requires
            n < pow2(e + 1),
            s > 0,
    ;
    assert(pow2(e) * s <= n * s) by (nonlinear_arith)
        requires
            pow2(e) <= n,
            s > 0,
    ;
}

/// Two whole counts that a double holds exactly, those of at most 53
/// digits, have the same bits only when they are the same count.
pub proof fn lemma_whole_bits_differ(a: nat, b: nat)
    requires
        a < pow2(53),
        b < pow2(53),
        whole_bits(a) == whole_bits(b),
    ensures
        a == b,
{
    lemma2_to64_rest();
    if a > 0 {
        lemma_whole_bits_parts(a);
    }
    if b > 0 {
        lemma_whole_bits_parts(b);
    }
    if a > 0 && b > 0 {
        let ea = top_bit(a);
        let eb = top_bit(b);
        let fa = a * pow2((52 - ea) as nat) - pow2(52);
        let fb = b * pow2((52 - eb) as nat) - pow2(52);
        assert(ea == eb) by (nonlinear_arith)
            requires
                (1023 + ea) * pow2(52) + fa == (1023 + eb) * pow2(52) + fb,
                0 <= fa < pow2(52),
                0 <= fb < pow2(52),
        ;
        let s = pow2((52 - ea) as nat);
        lemma_pow2_pos((52 - ea) as nat);
        assert(a == b) by (nonlinear_arith)
            requires
                a * s == b * s,
                s > 0,
        ;
    }
}

/// The bit pattern of the double-precision number that stands for `n`.
pub fn whole_count_bits(n: usize) -> (bits: u64)
    ensures
        bits == whole_bits(n as nat),
{
    let n = n as u64;
    if n == 0 {
        return 0;
    }
    proof {
        lemma2_to64();
        lemma2_to64_rest();
    }
    let mut e: u64 = 0;
    let mut p: u64 = 1;
    while p <= n / 2
        invariant
            p == pow2(e as nat),
            1 <= p <= n,
            e <= 63,
        decreases n - p,
    {
        proof {
            lemma2_to64_rest();
            lemma_pow2_unfold((e + 1) as nat);
        }
        p = p * 2;
        e = e + 1;
    }
    proof {
        lemma_pow2_unfold((e + 1) as nat);
        lemma_top_bit(n as nat, e as nat);
    }
    if e <= 52 {
        let mut s: u64 = 1;
        let mut k: u64 = e;
        while k < 52
            invariant
                e <= k <= 52,
                s == pow2((k - e) as nat),
                s <= 0x10000000000000,
            decreases 52 - k,
        {
            proof {
                lemma2_to64_rest();
                lemma_pow2_unfold((k + 1 - e) as nat);
                if k + 1 - e < 52 {
                    lemma_pow2_strictly_increases((k + 1 - e) as nat, 52);
                }
            }
            s = s * 2;
            k = k + 1;
        }
        proof {
            lemma_pow2_adds(e as nat, (52 - e) as nat);
            lemma_pow2_adds((e + 1) as nat, (52 - e) as nat);
            assert(p * s == pow2(52));
            assert(pow2((e + 1) as nat) * s == pow2(53));
            assert(n * s < pow2((e + 1) as nat) * s) by (nonlinear_arith)
                requires
                    n < pow2((e + 1) as nat),
                    s > 0,
            ;
            assert(p * s <= n * s) by (nonlinear_arith)
                requires
                    p <= n,
                    s > 0,
            ;
        }
        (1023 + e) * 0x10000000000000 + (n * s - 0x10000000000000)
    } else {
        let mut d: u64 = 1;
        let mut k: u64 = 52;
        while k < e
            invariant
                52 <= k <= e <= 63,
                d == pow2((k - 52) as nat),
                d <= 0x800,
            decreases e - k,
        {
            proof {
                lemma2_to64();
                lemma_pow2_unfold((k + 1 - 52) as nat);
                if k + 1 - 52 < 11 {
                    lemma_pow2_strictly_increases((k + 1 - 52) as nat, 11);
                }
            }
            d = d * 2;
            k = k + 1;
        }
        let q = n / d;
        let r = n % d;
        proof {
            lemma_pow2_adds(52, (e - 52) as nat);
            lemma_pow2_adds(53, (e - 52) as nat);
            assert(pow2(e as nat) == pow2(52) * d);
            assert(pow2((e + 1) as nat) == pow2(53) * d);
            assert(pow2(52) <= q < pow2(53)) by (nonlinear_arith)
                requires
                    pow2(52) * d <= n < pow2(53) * d,
                    d > 0,
                    q == n as int / d as int,
            ;
        }
        let up: u64 = if 2 * r > d || (2 * r == d && q % 2 == 1) {
            1
        } else {
            0
        };
        (1023 + e) * 0x10000000000000 + (q + up - 0x10000000000000)
    }
}

} // verus!
