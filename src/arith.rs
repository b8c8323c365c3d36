//! Divisibility, primes and powers over the natural numbers.

use vstd::arithmetic::div_mod::{lemma_div_multiples_vanish, lemma_fundamental_div_mod};
use vstd::prelude::*;

verus! {

/// `d` divides `n`.
pub open spec fn divides(d: nat, n: nat) -> bool {
    d > 0 && n % d == 0
}

/// `d` is a divisor of `n` strictly between 1 and `n`.
pub open spec fn is_proper_divisor(d: nat, n: nat) -> bool {
    1 < d < n && divides(d, n)
}

/// `p` is a prime: at least 2, with no divisor strictly between 1 and itself.
pub open spec fn is_prime(p: nat) -> bool {
    p >= 2 && forall|d: nat| 2 <= d < p ==> !#[trigger] divides(d, p)
}

/// No number above 1 divides both `a` and `b`.
pub open spec fn coprime(a: nat, b: nat) -> bool {
    forall|c: nat| #![trigger divides(c, a), divides(c, b)] c > 1 && divides(c, a) ==> !divides(c, b)
}

/// `b` raised to the power `e`.
pub open spec fn power(b: nat, e: nat) -> nat
    decreases e,
{
    if e == 0 {
        1
    } else {
        b * power(b, (e - 1) as nat)
    }
}

pub proof fn lemma_power_pos(b: nat, e: nat)
    requires
        b > 0,
    ensures
        power(b, e) > 0,
    decreases e,
{
    if e > 0 {
        lemma_power_pos(b, (e - 1) as nat);
        assert(b * power(b, (e - 1) as nat) > 0) by (nonlinear_arith)
            requires
                b > 0,
                power(b, (e - 1) as nat) > 0,
        ;
    }
}

/// `d` divides every multiple of itself.
pub proof fn lemma_divides_intro(d: nat, k: nat)
    requires
        d > 0,
    ensures
        divides(d, d * k),
{
    lemma_fundamental_div_mod((d * k) as int, d as int);
    lemma_div_multiples_vanish(k as int, d as int);
}

/// A divisor gives back its multiple.
pub proof fn lemma_divides_elim(d: nat, n: nat)
    requires
        divides(d, n),
    ensures
        n == d * (n / d),
{
    lemma_fundamental_div_mod(n as int, d as int);
}

pub proof fn lemma_divides_trans(a: nat, b: nat, c: nat)
    requires
        divides(a, b),
        divides(b, c),
    ensures
        divides(a, c),
{
    lemma_divides_elim(a, b);
    lemma_divides_elim(b, c);
    let k = b / a;
    let j = c / b;
    assert(c == a * (k * j)) by (nonlinear_arith)
        requires
            b == a * k,
            c == b * j,
    ;
    lemma_divides_intro(a, k * j);
}

pub proof fn lemma_divides_mul(a: nat, b: nat, c: nat, d: nat)
    requires
        divides(a, b),
        divides(c, d),
    ensures
        divides(a * c, b * d),
{
    lemma_divides_elim(a, b);
    lemma_divides_elim(c, d);
    let k = b / a;
    let j = d / c;
    assert(b * d == (a * c) * (k * j) && a * c > 0) by (nonlinear_arith)
        requires
            b == a * k,
            d == c * j,
            a > 0,
            c > 0,
    ;
    lemma_divides_intro(a * c, k * j);
}

/// A common factor cancels from both sides of a divisibility.
pub proof fn lemma_divides_cancel(a: nat, b: nat, p: nat)
    requires
        a > 0,
        p > 0,
        divides(a * p, b * p),
    ensures
        divides(a, b),
{
    lemma_divides_elim(a * p, b * p);
    let k = (b * p) / (a * p);
    assert(b == a * k) by (nonlinear_arith)
        requires
            b * p == (a * p) * k,
            p > 0,
    ;
    lemma_divides_intro(a, k);
}

/// A divisor of a positive number is at most that number.
pub proof fn lemma_divides_le(d: nat, n: nat)
    requires
        divides(d, n),
        n > 0,
    ensures
        d <= n,
{
    lemma_divides_elim(d, n);
    let k = n / d;
    assert(d <= n) by (nonlinear_arith)
        requires
            n == d * k,
            n > 0,
    ;
}

pub proof fn lemma_divides_sub(p: nat, x: nat, y: nat)
    requires
        divides(p, x),
        divides(p, y),
        y <= x,
    ensures
        divides(p, (x - y) as nat),
{
    lemma_divides_elim(p, x);
    lemma_divides_elim(p, y);
    let a = x / p;
    let b = y / p;
    assert(a >= b && x - y == p * (a - b)) by (nonlinear_arith)
        requires
            x == p * a,
            y == p * b,
            y <= x,
            p > 0,
    ;
    lemma_divides_intro(p, (a - b) as nat);
}

/// A prime that divides `a * b`, with `0 < a < p`, divides `b`.
proof fn lemma_prime_divides_small(p: nat, a: nat, b: nat)
    requires
        is_prime(p),
        0 < a < p,
        divides(p, a * b),
    ensures
        divides(p, b),
    decreases a,
{
    if b == 0 {
    } else if a == 1 {
        assert(a * b == b) by (nonlinear_arith)
            requires
                a == 1,
        ;
    } else {
        assert(!divides(a, p));
        let q = p / a;
        let r = p % a;
        lemma_fundamental_div_mod(p as int, a as int);
        assert(0 < r < a);
        assert(p * b == q * (a * b) + r * b) by (nonlinear_arith)
            requires
                p == a * q + r,
        ;
        lemma_divides_intro(p, b);
        lemma_divides_elim(p, a * b);
        let k = (a * b) / p;
        assert(q * (a * b) == p * (k * q)) by (nonlinear_arith)
            requires
                a * b == p * k,
        ;
        lemma_divides_intro(p, k * q);
        lemma_divides_sub(p, p * b, q * (a * b));
        assert((p * b - q * (a * b)) as nat == r * b);
        lemma_prime_divides_small(p, r, b);
    }
}

/// A prime that divides a product divides one of its factors.
pub proof fn lemma_prime_divides_product(p: nat, a: nat, b: nat)
    requires
        is_prime(p),
        divides(p, a * b),
    ensures
        divides(p, a) || divides(p, b),
{
    let q = a / p;
    let r = a % p;
    lemma_fundamental_div_mod(a as int, p as int);
    if r != 0 {
        assert(a * b == p * (q * b) + r * b) by (nonlinear_arith)
            requires
                a == p * q + r,
        ;
        lemma_divides_intro(p, q * b);
        lemma_divides_sub(p, a * b, p * (q * b));
        assert((a * b - p * (q * b)) as nat == r * b);
        lemma_prime_divides_small(p, r, b);
    }
}

/// Every divisor `c` of `m * p^e`, where the prime `p` does not divide `m`,
/// is `p^j` times a divisor of `m`, for the returned `j <= e`.
pub proof fn lemma_split_divisor(p: nat, m: nat, e: nat, c: nat) -> (j: nat)
    requires
        is_prime(p),
        !divides(p, m),
        m > 0,
        divides(c, m * power(p, e)),
    ensures
        j <= e,
        power(p, j) > 0,
        c == power(p, j) * (c / power(p, j)),
        divides(c / power(p, j), m),
    decreases e,
{
    lemma_power_pos(p, e);
    if e == 0 {
        assert(power(p, e) == 1);
        assert(m * power(p, e) == m) by (nonlinear_arith)
            requires
                power(p, e) == 1,
        ;
        assert(c / 1 == c);
        0
    } else {
        let e1 = (e - 1) as nat;
        let big = m * power(p, e1);
        lemma_power_pos(p, e1);
        assert(m * power(p, e) == big * p && big > 0) by (nonlinear_arith)
            requires
                power(p, e) == p * power(p, e1),
                big == m * power(p, e1),
                m > 0,
                power(p, e1) > 0,
        ;
        if divides(p, c) {
            lemma_divides_elim(p, c);
            let c1 = c / p;
            assert(c1 * p == c && c1 > 0) by (nonlinear_arith)
                requires
                    c == p * c1,
                    c > 0,
            ;
            lemma_divides_cancel(c1, big, p);
            let j1 = lemma_split_divisor(p, m, e1, c1);
            let q = c1 / power(p, j1);
            let j = j1 + 1;
            assert(power(p, j) == p * power(p, j1));
            assert(c == power(p, j) * q && power(p, j) > 0) by (nonlinear_arith)
                requires
                    c == p * c1,
                    c1 == power(p, j1) * q,
                    power(p, j) == p * power(p, j1),
                    power(p, j1) > 0,
                    p > 0,
            ;
            lemma_div_multiples_vanish(q as int, power(p, j) as int);
            j
        } else {
            lemma_divides_elim(c, big * p);
            let k = (big * p) / c;
            lemma_divides_intro(p, big);
            assert(p * big == c * k) by (nonlinear_arith)
                requires
                    big * p == c * k,
            ;
            lemma_prime_divides_product(p, c, k);
            lemma_divides_elim(p, k);
            let k1 = k / p;
            assert(c * k1 * p == big * p) by (nonlinear_arith)
                requires
                    big * p == c * k,
                    k == p * k1,
            ;
            assert(c * k1 == big) by (nonlinear_arith)
                requires
                    c * k1 * p == big * p,
                    p > 0,
            ;
            lemma_divides_intro(c, k1);
            lemma_split_divisor(p, m, e1, c)
        }
    }
}

/// Taking a prime power out of `num0` keeps the two parts coprime: when
/// `m0` and `num0 == rest * p^e` are coprime and `p` divides neither `m0` nor
/// `rest`, so are `m0 * p^e` and `rest`.
pub proof fn lemma_coprime_step(m0: nat, num0: nat, p: nat, e: nat, rest: nat)
    requires
        coprime(m0, num0),
        is_prime(p),
        !divides(p, m0),
        !divides(p, rest),
        num0 == rest * power(p, e),
        m0 > 0,
        rest > 0,
    ensures
        coprime(m0 * power(p, e), rest),
{
    assert forall|c: nat|
        #![trigger divides(c, m0 * power(p, e)), divides(c, rest)]
        c > 1 && divides(c, m0 * power(p, e)) implies !divides(c, rest) by {
        if divides(c, rest) {
            let j = lemma_split_divisor(p, m0, e, c);
            let q = c / power(p, j);
            if j > 0 {
                let j1 = (j - 1) as nat;
                assert(power(p, j) == p * power(p, j1));
                assert(c == p * (power(p, j1) * q)) by (nonlinear_arith)
                    requires
                        c == power(p, j) * q,
                        power(p, j) == p * power(p, j1),
                ;
                lemma_divides_intro(p, power(p, j1) * q);
                lemma_divides_trans(p, c, rest);
            } else {
                assert(c == q) by (nonlinear_arith)
                    requires
                        c == power(p, j) * q,
                        power(p, j) == 1,
                ;
                lemma_divides_intro(rest, power(p, e));
                lemma_divides_trans(c, rest, num0);
                assert(divides(c, m0) && divides(c, num0));
            }
        }
    }
}

/// The least divisor above 1 of a number is a prime.
pub proof fn lemma_least_factor_prime(x: nat, num: nat)
    requires
        x >= 2,
        divides(x, num),
        forall|d: nat| 2 <= d < x ==> !#[trigger] divides(d, num),
    ensures
        is_prime(x),
{
    assert forall|d: nat| 2 <= d < x implies !#[trigger] divides(d, x) by {
        if divides(d, x) {
            lemma_divides_trans(d, x, num);
        }
    }
}

/// A number above 1 with no divisor in `[2, x)`, where `x * x > num`, is a prime.
pub proof fn lemma_no_small_factor_prime(num: nat, x: nat)
    requires
        num >= 2,
        x * x > num,
        forall|d: nat| 2 <= d < x ==> !#[trigger] divides(d, num),
    ensures
        is_prime(num),
{
    assert forall|d: nat| 2 <= d < num implies !#[trigger] divides(d, num) by {
        if divides(d, num) {
            lemma_divides_elim(d, num);
            let k = num / d;
            assert(k >= 2) by (nonlinear_arith)
                requires
                    num == d * k,
                    d < num,
            ;
            assert(num == k * d) by (nonlinear_arith)
                requires
                    num == d * k,
            ;
            lemma_divides_intro(k, d);
            assert(divides(k, num));
            assert(d >= x);
            assert(k >= x);
            assert(false) by (nonlinear_arith)
                requires
                    d >= x,
                    k >= x,
                    x * x > num,
                    num == d * k,
            ;
        }
    }
}

} // verus!
