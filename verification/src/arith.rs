//! Integer facts shared by the matrix, key and cipher code: Rust's
//! remainder and division by two on signed integers, and sums.
use vstd::prelude::*;

verus! {

/// Whether `x` is a value of `i64`.
pub open spec fn fits_i64(x: int) -> bool {
    i64::MIN <= x <= i64::MAX
}

/// Rust's `%` on signed integers: the remainder of the division rounded
/// toward zero, which has the sign of `a` (for `b != 0`).
pub open spec fn trunc_rem(a: int, b: int) -> int {
    if a >= 0 {
        a % b
    } else {
        -((-a) % b)
    }
}

/// Rust's `a / 2` on signed integers: the quotient rounded toward zero.
pub open spec fn half_toward_zero(a: int) -> int {
    if a >= 0 {
        a / 2
    } else {
        -((-a) / 2)
    }
}

/// Whether Rust's `a % b` on `i64` returns instead of panicking.
pub open spec fn rem_defined(a: int, b: int) -> bool {
    b != 0 && !(a == i64::MIN && b == -1)
}

/// The absolute value.
pub open spec fn abs(a: int) -> int {
    if a < 0 {
        -a
    } else {
        a
    }
}

/// `a` and `b` leave the same remainder modulo `q`.
pub open spec fn congruent(a: int, b: int, q: int) -> bool {
    (a - b) % q == 0
}

/// Two values that differ by a multiple of `q` are congruent.
pub proof fn lemma_congruent_by_multiple(a: int, b: int, q: int, k: int)
    requires
        q > 0,
        a - b == k * q,
    ensures
        congruent(a, b, q),
{
    vstd::arithmetic::div_mod::lemma_mod_multiples_basic(k, q);
}

/// Congruent values differ by a multiple of `q`.
pub proof fn lemma_multiple_of_congruent(a: int, b: int, q: int) -> (k: int)
    requires
        q > 0,
        congruent(a, b, q),
    ensures
        a - b == k * q,
{
    vstd::arithmetic::div_mod::lemma_fundamental_div_mod(a - b, q);
    let k = (a - b) / q;
    assert(a - b == q * k);
    assert(q * k == k * q) by (nonlinear_arith);
    k
}

/// Congruences modulo the same `q` add up.
pub proof fn lemma_congruent_add(a: int, b: int, c: int, d: int, q: int)
    requires
        q > 0,
        congruent(a, b, q),
        congruent(c, d, q),
    ensures
        congruent(a + c, b + d, q),
{
    let k1 = lemma_multiple_of_congruent(a, b, q);
    let k2 = lemma_multiple_of_congruent(c, d, q);
    assert((a + c) - (b + d) == (k1 + k2) * q) by (nonlinear_arith)
        requires
            a - b == k1 * q,
            c - d == k2 * q,
    ;
    lemma_congruent_by_multiple(a + c, b + d, q, k1 + k2);
}

/// Congruence modulo `q` is transitive.
pub proof fn lemma_congruent_trans(a: int, b: int, c: int, q: int)
    requires
        q > 0,
        congruent(a, b, q),
        congruent(b, c, q),
    ensures
        congruent(a, c, q),
{
    let k1 = lemma_multiple_of_congruent(a, b, q);
    let k2 = lemma_multiple_of_congruent(b, c, q);
    assert(a - c == (k1 + k2) * q) by (nonlinear_arith)
        requires
            a - b == k1 * q,
            b - c == k2 * q,
    ;
    lemma_congruent_by_multiple(a, c, q, k1 + k2);
}

/// Congruence modulo `q` is symmetric.
pub proof fn lemma_congruent_symm(a: int, b: int, q: int)
    requires
        q > 0,
        congruent(a, b, q),
    ensures
        congruent(b, a, q),
{
    let k = lemma_multiple_of_congruent(a, b, q);
    assert(b - a == (-k) * q) by (nonlinear_arith)
        requires
            a - b == k * q,
    ;
    lemma_congruent_by_multiple(b, a, q, -k);
}

/// Congruence modulo `q` is kept by multiplying both sides by `c`.
pub proof fn lemma_congruent_mul(a: int, b: int, c: int, q: int)
    requires
        q > 0,
        congruent(a, b, q),
    ensures
        congruent(a * c, b * c, q),
{
    let k = lemma_multiple_of_congruent(a, b, q);
    assert(a * c - b * c == (k * c) * q) by (nonlinear_arith)
        requires
            a - b == k * q,
    ;
    lemma_congruent_by_multiple(a * c, b * c, q, k * c);
}

/// Every value is congruent to itself.
pub proof fn lemma_congruent_refl(a: int, q: int)
    requires
        q > 0,
    ensures
        congruent(a, a, q),
{
    lemma_congruent_by_multiple(a, a, q, 0);
}

/// The Euclidean remainder of a value congruent to `u`, where `u` lies
/// strictly between `-q` and `q`.
pub proof fn lemma_mod_of_small(y: int, u: int, q: int)
    requires
        q > 0,
        -q < u < q,
        congruent(y, u, q),
    ensures
        y % q == if u >= 0 { u } else { u + q },
{
    let k = lemma_multiple_of_congruent(y, u, q);
    assert(y == q * k + u) by (nonlinear_arith)
        requires
            y - u == k * q,
    ;
    vstd::arithmetic::div_mod::lemma_mod_multiples_vanish(k, u, q);
    if u >= 0 {
        vstd::arithmetic::div_mod::lemma_small_mod(u as nat, q as nat);
    } else {
        vstd::arithmetic::div_mod::lemma_mod_multiples_vanish(-1, u + q, q);
        vstd::arithmetic::div_mod::lemma_small_mod((u + q) as nat, q as nat);
    }
}

/// Rust's remainder is congruent to the dividend.
pub proof fn lemma_trunc_rem_congruent(a: int, q: int)
    requires
        q > 0,
    ensures
        congruent(trunc_rem(a, q), a, q),
        -q < trunc_rem(a, q) < q,
{
    if a >= 0 {
        vstd::arithmetic::div_mod::lemma_fundamental_div_mod(a, q);
        let k = a / q;
        assert(a % q - a == (-k) * q) by (nonlinear_arith)
            requires
                a == q * k + a % q,
        ;
        lemma_congruent_by_multiple(trunc_rem(a, q), a, q, -k);
    } else {
        vstd::arithmetic::div_mod::lemma_fundamental_div_mod(-a, q);
        let k = (-a) / q;
        assert(-((-a) % q) - a == k * q) by (nonlinear_arith)
            requires
                -a == q * k + (-a) % q,
        ;
        lemma_congruent_by_multiple(trunc_rem(a, q), a, q, k);
    }
}

} // verus!
