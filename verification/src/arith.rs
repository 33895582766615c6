//! Integer helpers for fixed-point amounts: truncating division and an exact
//! `a * b / c` that never leaves 128 bits.
use vstd::prelude::*;

verus! {

/// Division rounding toward zero, as Rust's integer `/` does, for a positive
/// divisor.
pub open spec fn trunc_div(a: int, b: int) -> int
    recommends
        b > 0,
{
    if a >= 0 { a / b } else { -((-a) / b) }
}

pub open spec fn min_int(a: int, b: int) -> int {
    if a <= b { a } else { b }
}

pub open spec fn max_int(a: int, b: int) -> int {
    if a >= b { a } else { b }
}

pub open spec fn sign(a: int) -> int {
    if a > 0 { 1 } else if a < 0 { -1 } else { 0 }
}

pub open spec fn abs_int(a: int) -> int {
    if a < 0 { -a } else { a }
}

pub open spec fn pow2(k: nat) -> nat
    decreases k,
{
    if k == 0 { 1 } else { 2 * pow2((k - 1) as nat) }
}

/// `a / b` rounded toward zero, for `b > 0`.
pub fn trunc_div_exec(a: i128, b: i128) -> (r: i128)
    requires
        b > 0,
        a > i128::MIN,
    ensures
        r == trunc_div(a as int, b as int),
{
    if a >= 0 {
        a / b
    } else {
        -((-a) / b)
    }
}

proof fn lemma_pow2_72()
    ensures
        pow2(72) == 0x1000000000000000000,
{
    reveal_with_fuel(pow2, 73);
}

/// `floor(a * b / c)` for `b <= c`, computed one bit of `a` at a time so that
/// no intermediate value exceeds 128 bits.
pub fn mul_div_floor(a: u128, b: u128, c: u128) -> (r: u128)
    requires
        a < 0x1000000000000000000,
        b <= c,
        0 < c < 0x40000000000000000000000000000000,
    ensures
        r as int == (a as int * b as int) / (c as int),
        r <= a,
{
    let mut p: u128 = 0x1000000000000000000;
    let ghost mut k: nat = 72;
    let mut q: u128 = 0;
    let mut r: u128 = 0;
    proof {
        lemma_pow2_72();
        assert(a as int / p as int == 0) by {
            vstd::arithmetic::div_mod::lemma_basic_div(a as int, p as int);
        }
    }
    while p > 1
        invariant
            p == pow2(k),
            k <= 72,
            1 <= p <= 0x1000000000000000000,
            b <= c,
            0 < c < 0x40000000000000000000000000000000,
            a < 0x1000000000000000000,
            r < c,
            q <= a as int / p as int,
            q as int * c as int + r as int == (a as int / p as int) * b as int,
        decreases p,
    {
        let ghost m = a as int / p as int;
        let p2 = p / 2;
        proof {
            assert(k > 0) by {
                if k == 0 {
                    assert(p == 1);
                }
            }
            assert(p == 2 * pow2((k - 1) as nat));
            assert(p2 == pow2((k - 1) as nat));
            assert(p == p2 * 2);
            vstd::arithmetic::div_mod::lemma_div_denominator(a as int, p2 as int, 2);
            vstd::arithmetic::div_mod::lemma_fundamental_div_mod(a as int / p2 as int, 2);
        }
        let m2 = a / p2;
        let bit = m2 % 2;
        proof {
            assert(m2 == 2 * m + bit);
            assert(q as int * c as int <= m * b as int) by {
                assert(r >= 0);
            }
            assert(q as int * c as int >= q as int * 1) by (nonlinear_arith)
                requires
                    c >= 1,
                    q >= 0,
            ;
        }
        proof {
            assert(bit < 2);
            assert(bit * b <= b) by (nonlinear_arith)
                requires
                    bit <= 1,
            ;
        }
        let mut r2: u128 = 2 * r + bit * b;
        let mut q2: u128 = 2 * q;
        proof {
            assert(q2 as int * c as int + r2 as int == m2 as int * b as int) by (nonlinear_arith)
                requires
                    q as int * c as int + r as int == m * b as int,
                    m2 == 2 * m + bit,
                    q2 == 2 * q,
                    r2 == 2 * r + bit * b,
            ;
        }
        if r2 >= c {
            let ghost (q0, r0) = (q2, r2);
            r2 = r2 - c;
            q2 = q2 + 1;
            proof {
                assert(q2 as int * c as int + r2 as int == q0 as int * c as int + r0 as int)
                    by (nonlinear_arith)
                    requires
                        q2 == q0 + 1,
                        r2 == r0 - c,
                ;
            }
        }
        if r2 >= c {
            let ghost (q0, r0) = (q2, r2);
            r2 = r2 - c;
            q2 = q2 + 1;
            proof {
                assert(q2 as int * c as int + r2 as int == q0 as int * c as int + r0 as int)
                    by (nonlinear_arith)
                    requires
                        q2 == q0 + 1,
                        r2 == r0 - c,
                ;
            }
        }
        proof {
            assert(r2 < c);
            assert(q2 as int * c as int <= m2 as int * b as int);
            assert(m2 as int * b as int <= m2 as int * c as int) by (nonlinear_arith)
                requires
                    b <= c,
                    m2 >= 0,
            ;
            assert(q2 <= m2) by (nonlinear_arith)
                requires
                    q2 as int * c as int <= m2 as int * c as int,
                    c > 0,
            ;
        }
        q = q2;
        r = r2;
        p = p2;
        proof {
            k = (k - 1) as nat;
        }
    }
    proof {
        assert(p == 1);
        assert(a as int / 1 == a as int);
        vstd::arithmetic::div_mod::lemma_fundamental_div_mod_converse(
            a as int * b as int,
            c as int,
            q as int,
            r as int,
        );
    }
    q
}

} // verus!
