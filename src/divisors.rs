//! The divisor enumerator: strip powers of two, trial-divide by odd
//! candidates, and combine every prime power found with the divisors known
//! before it.

use vstd::arithmetic::power2::{
    lemma2_to64, lemma_pow2_adds, lemma_pow2_pos, lemma_pow2_strictly_increases,
    lemma_pow2_unfold, pow2,
};
use vstd::prelude::*;

use crate::arith::{
    coprime, divides, is_prime, is_proper_divisor, lemma_coprime_step, lemma_divides_cancel,
    lemma_divides_elim, lemma_divides_intro, lemma_divides_le, lemma_divides_mul,
    lemma_divides_trans, lemma_least_factor_prime, lemma_no_small_factor_prime, lemma_power_pos,
    lemma_split_divisor, power,
};
use crate::sqrt::{
    approximated_sqrt, lemma_sqrt_bound_exceeds_root, lemma_sqrt_bound_fits, sqrt_bound,
};
use crate::sorted::{lemma_ascending_unique, sort_ascending, strictly_ascending, values};
use crate::unsigned::Num;

verus! {

/// `s` is the list of the proper divisors of `n`, ascending: what
/// `get_divisors` returns for `n`.
pub open spec fn is_divisor_list(s: Seq<nat>, n: nat) -> bool {
    &&& strictly_ascending(s)
    &&& forall|d: nat| #[trigger] s.contains(d) <==> is_proper_divisor(d, n)
}

/// `s` holds every divisor of `m` above 1, each once, and nothing else.
pub open spec fn lists_divisors(s: Seq<nat>, m: nat) -> bool {
    &&& s.no_duplicates()
    &&& forall|d: nat| #[trigger] s.contains(d) <==> (d > 1 && divides(d, m))
}

/// `s` followed by `pw` and by `pw` times each of the first `len` entries of `s`.
pub open spec fn expand(s: Seq<nat>, len: int, pw: nat) -> Seq<nat> {
    s.push(pw) + s.take(len).map_values(|d: nat| pw * d)
}

proof fn lemma_power_divides(p: nat, i: nat, k: nat)
    requires
        p > 0,
        i <= k,
    ensures
        divides(power(p, i), power(p, k)),
    decreases k,
{
    lemma_power_pos(p, k);
    if i == k {
        lemma_divides_intro(power(p, k), 1);
    } else {
        let k1 = (k - 1) as nat;
        lemma_power_divides(p, i, k1);
        lemma_power_pos(p, k1);
        assert(power(p, k) == power(p, k1) * p) by (nonlinear_arith)
            requires
                power(p, k) == p * power(p, k1),
        ;
        lemma_divides_intro(power(p, k1), p);
        lemma_divides_trans(power(p, i), power(p, k1), power(p, k));
    }
}

/// `p^j * q`, for a divisor `q` of `m0`, does not divide `m0 * p^(j - 1)`
/// when the prime `p` does not divide `m0`.
proof fn lemma_new_power_is_new(m0: nat, p: nat, j: nat, q: nat)
    requires
        p >= 2,
        j >= 1,
        !divides(p, m0),
        q > 0,
    ensures
        !divides(power(p, j) * q, m0 * power(p, (j - 1) as nat)),
{
    let j1 = (j - 1) as nat;
    let lower = power(p, j1);
    lemma_power_pos(p, j1);
    if divides(power(p, j) * q, m0 * lower) {
        assert(power(p, j) * q == (p * q) * lower && p * q > 0) by (nonlinear_arith)
            requires
                power(p, j) == p * lower,
                p >= 2,
                q > 0,
        ;
        assert(m0 * lower == m0 * lower);
        lemma_divides_cancel(p * q, m0, lower);
        lemma_divides_intro(p, q);
        lemma_divides_trans(p, p * q, m0);
    }
}

/// One step of the combinatorial expansion. When the first `len` entries of
/// `s` list the divisors of `m0`, and `s` lists those of `m0 * p^(j - 1)`, then
/// appending `p^j` and `p^j` times each of those first entries lists the
/// divisors of `m0 * p^j`.
pub proof fn lemma_expand(s: Seq<nat>, len: int, m0: nat, p: nat, j: nat)
    requires
        is_prime(p),
        !divides(p, m0),
        m0 > 0,
        j >= 1,
        0 <= len <= s.len(),
        lists_divisors(s.take(len), m0),
        lists_divisors(s, m0 * power(p, (j - 1) as nat)),
    ensures
        lists_divisors(expand(s, len, power(p, j)), m0 * power(p, j)),
{
    let j1 = (j - 1) as nat;
    let pw = power(p, j);
    let lower = power(p, j1);
    let old_m = m0 * lower;
    let new_m = m0 * pw;
    let base = s.take(len);
    let t = expand(s, len, pw);
    lemma_power_pos(p, j1);
    assert(pw == p * lower);
    assert(new_m == old_m * p && pw >= 2 && new_m == pw * m0 && old_m > 0) by (nonlinear_arith)
        requires
            pw == p * lower,
            lower > 0,
            p >= 2,
            m0 > 0,
            old_m == m0 * lower,
            new_m == m0 * pw,
    ;
    assert(t.len() == s.len() + 1 + len);
    assert forall|i: int| 0 <= i < t.len() implies #[trigger] t[i] == (if i < s.len() {
        s[i]
    } else if i == s.len() {
        pw
    } else {
        pw * s[i - s.len() - 1]
    }) by {}
    // Every entry divides the new product.
    assert forall|d: nat| #[trigger] t.contains(d) implies d > 1 && divides(d, new_m) by {
        let i = choose|i: int| 0 <= i < t.len() && t[i] == d;
        if i < s.len() {
            assert(s.contains(s[i]));
            lemma_divides_intro(old_m, p);
            lemma_divides_trans(d, old_m, new_m);
        } else if i == s.len() {
            lemma_divides_intro(pw, m0);
        } else {
            let b = s[i - s.len() - 1];
            assert(base[i - s.len() - 1] == b);
            assert(base.contains(b));
            lemma_divides_intro(pw, 1);
            lemma_divides_mul(pw, pw, b, m0);
            assert(pw * b > 1) by (nonlinear_arith)
                requires
                    pw >= 2,
                    b > 1,
            ;
        }
    }
    // Every divisor of the new product is an entry.
    assert forall|d: nat| d > 1 && divides(d, new_m) implies #[trigger] t.contains(d) by {
        let i = lemma_split_divisor(p, m0, j, d);
        let q = d / power(p, i);
        lemma_divides_le(q, m0);
        if i < j {
            lemma_power_divides(p, i, j1);
            lemma_divides_mul(q, m0, power(p, i), lower);
            assert(q * power(p, i) == d && m0 * lower == old_m) by (nonlinear_arith)
                requires
                    d == power(p, i) * q,
                    old_m == m0 * lower,
            ;
            assert(s.contains(d));
            let k = choose|k: int| 0 <= k < s.len() && s[k] == d;
            assert(t[k] == d);
        } else if q == 1 {
            assert(d == pw) by (nonlinear_arith)
                requires
                    d == power(p, i) * q,
                    q == 1,
                    i == j,
                    pw == power(p, j),
            ;
            assert(t[s.len() as int] == d);
        } else {
            assert(q > 0);
            assert(q != 0) by (nonlinear_arith)
                requires
                    d == power(p, i) * q,
                    d > 1,
            ;
            assert(base.contains(q));
            let k = choose|k: int| 0 <= k < base.len() && base[k] == q;
            assert(t[s.len() + 1 + k] == pw * q);
            assert(pw * q == d);
        }
    }
    // No entry is repeated.
    assert forall|a: int, b: int| 0 <= a < t.len() && 0 <= b < t.len() && a != b implies t[a]
        != t[b] by {
        if a < s.len() && b < s.len() {
        } else if a >= s.len() && b >= s.len() {
            if a > s.len() && b > s.len() {
                let x = s[a - s.len() - 1];
                let y = s[b - s.len() - 1];
                assert(x != y);
                assert(pw * x != pw * y) by (nonlinear_arith)
                    requires
                        x != y,
                        pw > 0,
                ;
            } else {
                let k = if a > s.len() {
                    a - s.len() - 1
                } else {
                    b - s.len() - 1
                };
                let x = s[k];
                assert(base[k] == x);
                assert(base.contains(x));
                assert(pw * x != pw) by (nonlinear_arith)
                    requires
                        x > 1,
                        pw > 0,
                ;
            }
        } else {
            let (low, high) = if a < s.len() {
                (a, b)
            } else {
                (b, a)
            };
            let y = s[low];
            assert(s.contains(y));
            let q: nat = if high == s.len() {
                1
            } else {
                s[high - s.len() - 1]
            };
            if high > s.len() {
                assert(base[high - s.len() - 1] == q);
                assert(base.contains(q));
            }
            lemma_new_power_is_new(m0, p, j, q);
            assert(pw * q == t[high]);
        }
    }
}

/// For each of the first `v_len` entries `e` of `v`, appends `x * e`.
fn push_new_divisors<T: Num>(v: &mut Vec<T>, v_len: usize, x: T)
    requires
        v_len <= old(v).len(),
        forall|i: int| 0 <= i < v_len ==> x.val() * (#[trigger] old(v)@[i]).val() < pow2(T::width()),
    ensures
        values(final(v)@) == values(old(v)@) + values(old(v)@).take(v_len as int).map_values(
            |d: nat| x.val() * d,
        ),
{
    let ghost start = v@;
    let ghost added = values(start).take(v_len as int).map_values(|d: nat| x.val() * d);
    let mut i: usize = 0;
    while i < v_len
        invariant
            v_len <= start.len(),
            i <= v_len,
            v@.len() == start.len() + i,
            forall|k: int| 0 <= k < v_len ==> x.val() * (#[trigger] start[k]).val() < pow2(T::width()),
            values(v@) == values(start) + added.take(i as int),
            forall|k: int| 0 <= k < start.len() ==> v@[k] == start[k],
            added == values(start).take(v_len as int).map_values(|d: nat| x.val() * d),
        decreases v_len - i,
    {
        let e = v[i];
        assert(e == start[i as int]);
        let y = x.times(e);
        let ghost prev = v@;
        v.push(y);
        assert(values(v@) =~= values(prev).push(y.val()));
        assert(added[i as int] == y.val());
        assert(added.take(i + 1) =~= added.take(i as int).push(added[i as int]));
        i = i + 1;
        assert(values(v@) =~= values(start) + added.take(i as int));
    }
    assert(added.take(v_len as int) =~= added);
}

proof fn lemma_power_two(k: nat)
    ensures
        power(2, k) == pow2(k),
    decreases k,
{
    if k == 0 {
        lemma2_to64();
    } else {
        lemma_power_two((k - 1) as nat);
        lemma_pow2_unfold(k);
    }
}

/// Nothing above 1 divides 1, so a list of the divisors of 1 is empty.
proof fn lemma_lists_one(s: Seq<nat>)
    requires
        lists_divisors(s, 1),
    ensures
        s.len() == 0,
{
    if s.len() > 0 {
        assert(s.contains(s[0]));
        lemma_divides_le(s[0], 1);
    }
}

proof fn lemma_lists_empty(m: nat)
    requires
        m == 1,
    ensures
        lists_divisors(Seq::<nat>::empty(), m),
{
    assert forall|d: nat| d > 1 && divides(d, m) implies #[trigger] Seq::<nat>::empty().contains(d) by {
        lemma_divides_le(d, m);
    }
}

/// After the odd candidate `x` is divided out, no number in `[2, x + 2)`
/// divides what remains.
proof fn lemma_next_candidate(x: nat, num0: nat, rest: nat)
    requires
        x >= 3,
        x % 2 == 1,
        divides(rest, num0),
        !divides(x, rest),
        forall|d: nat| 2 <= d < x ==> !#[trigger] divides(d, num0),
    ensures
        forall|d: nat| 2 <= d < x + 2 ==> !#[trigger] divides(d, rest),
{
    assert forall|d: nat| 2 <= d < x + 2 implies !#[trigger] divides(d, rest) by {
        if divides(d, rest) {
            if d < x {
                lemma_divides_trans(d, rest, num0);
            } else if d == x + 1 {
                lemma_divides_trans(2, d, rest);
                lemma_divides_trans(2, rest, num0);
                assert(!divides(2, num0));
            }
        }
    }
}

/// A strictly ascending list of the divisors above 1 of `n`, with its last
/// entry removed, holds exactly the proper divisors of `n`, ascending.
proof fn lemma_drop_largest(s: Seq<nat>, n: nat)
    requires
        n >= 2,
        strictly_ascending(s),
        forall|d: nat| #[trigger] s.contains(d) <==> (d > 1 && divides(d, n)),
    ensures
        strictly_ascending(s.drop_last()),
        forall|d: nat| #[trigger] s.drop_last().contains(d) <==> is_proper_divisor(d, n),
{
    lemma_divides_intro(n, 1);
    assert(s.contains(n));
    let last = s.len() - 1;
    let k = choose|k: int| 0 <= k < s.len() && s[k] == n;
    assert(s.contains(s[last]));
    lemma_divides_le(s[last], n);
    assert(s[last] == n);
    let t = s.drop_last();
    assert forall|d: nat| #[trigger] t.contains(d) <==> is_proper_divisor(d, n) by {
        if t.contains(d) {
            let i = choose|i: int| 0 <= i < t.len() && t[i] == d;
            assert(s[i] == d);
            assert(s.contains(d));
        }
        if is_proper_divisor(d, n) {
            assert(s.contains(d));
            let i = choose|i: int| 0 <= i < s.len() && s[i] == d;
            assert(i != last);
            assert(t[i] == d);
        }
    }
}

/// All divisors of `n` strictly between 1 and `n`, in ascending order.
///
/// Powers of two are stripped first, then odd candidates divide the
/// remaining cofactor up to `approximated_sqrt` of it; each prime power
/// found is combined with the divisors known before it. A cofactor left
/// above 1 is a last prime. Zero, one and primes have none.
pub fn get_divisors<T: Num>(n: T) -> (r: Vec<T>)
    ensures
        is_divisor_list(values(r@), n.val()),
{
    let zero = T::from_u8(0);
    let one = T::from_u8(1);
    let two = T::from_u8(2);
    let mut v: Vec<T> = Vec::new();
    // Zero is divisible by every power of two: stripping would not end.
    if n.equals(zero) {
        assert(values(v@) =~= Seq::<nat>::empty());
        return v;
    }
    let ghost nv = n.val();
    let ghost w = T::width();
    proof {
        T::lemma_width();
        n.lemma_bounded();
        assert(values(v@) =~= Seq::<nat>::empty());
        lemma_lists_empty(1);
        assert(power(2, 0) == 1);
    }
    let mut number = n;
    let mut count: u32 = 0;
    while number.is_even()
        invariant
            nv == n.val(),
            w == T::width(),
            8 <= w <= 128,
            w % 2 == 0,
            nv < pow2(w),
            number.val() >= 1,
            nv == power(2, count as nat) * number.val(),
            lists_divisors(values(v@), power(2, count as nat)),
        decreases number.val(),
    {
        let ghost c = count as nat;
        let ghost h = number.val() / 2;
        proof {
            lemma_power_pos(2, c);
            assert(power(2, c + 1) == 2 * power(2, c));
            assert(nv == power(2, c + 1) * h && h >= 1) by (nonlinear_arith)
                requires
                    nv == power(2, c) * number.val(),
                    number.val() % 2 == 0,
                    number.val() >= 1,
                    h == number.val() / 2,
                    power(2, c + 1) == 2 * power(2, c),
            ;
            assert(power(2, c + 1) <= nv) by (nonlinear_arith)
                requires
                    nv == power(2, c + 1) * h,
                    h >= 1,
            ;
            lemma_power_two(c + 1);
            if c + 1 >= w {
                if c + 1 > w {
                    lemma_pow2_strictly_increases(w, c + 1);
                }
            }
            assert(is_prime(2));
            assert(!divides(2, 1));
            assert(values(v@).take(0) =~= Seq::<nat>::empty());
            lemma_lists_empty(1);
            assert(1 * power(2, c) == power(2, c));
            assert(1 * power(2, c + 1) == power(2, c + 1));
            lemma_expand(values(v@), 0, 1, 2, c + 1);
        }
        let ghost prev = values(v@);
        v.push(T::power_of_two(count + 1));
        count = count + 1;
        number = number.half();
        assert(values(v@) =~= expand(prev, 0, power(2, c + 1)));
    }
    let ghost mut m: nat = power(2, count as nat);
    proof {
        lemma_power_pos(2, count as nat);
        assert(coprime(1, nv)) by {
            assert forall|c: nat| #![trigger divides(c, 1), divides(c, nv)]
                c > 1 && divides(c, 1) implies !divides(c, nv) by {
                lemma_divides_le(c, 1);
            }
        }
        assert(nv == number.val() * power(2, count as nat));
        lemma_coprime_step(1, nv, 2, count as nat, number.val());
        assert(1 * power(2, count as nat) == m);
        n.lemma_bounded();
        number.lemma_bounded();
        lemma_sqrt_bound_fits(number.val(), w);
        lemma_pow2_adds(w / 2, w / 2);
        lemma2_to64();
        if 4 < w / 2 {
            lemma_pow2_strictly_increases(4, w / 2);
        }
    }
    let mut x = T::from_u8(3);
    let mut number_sqrt = approximated_sqrt(number);
    while x.less_than(number_sqrt)
        invariant
            nv == n.val(),
            w == T::width(),
            8 <= w <= 128,
            w % 2 == 0,
            nv < pow2(w),
            pow2(w) == pow2(w / 2) * pow2(w / 2),
            pow2(w / 2) >= 16,
            two.val() == 2,
            zero.val() == 0,
            nv >= 1,
            m > 0,
            number.val() >= 1,
            nv == m * number.val(),
            lists_divisors(values(v@), m),
            coprime(m, number.val()),
            x.val() >= 3,
            x.val() % 2 == 1,
            x.val() <= pow2(w / 2) + 1,
            forall|d: nat| 2 <= d < x.val() ==> !#[trigger] divides(d, number.val()),
            number_sqrt.val() == sqrt_bound(number.val()),
            number_sqrt.val() <= pow2(w / 2),
        decreases pow2(w / 2) + 2 - x.val(),
    {
        proof {
            assert(pow2(w / 2) + 1 < pow2(w)) by (nonlinear_arith)
                requires
                    pow2(w) == pow2(w / 2) * pow2(w / 2),
                    pow2(w / 2) >= 16,
            ;
        }
        let mut pow_x = x;
        let v_len = v.len();
        let x_is_a_divisor = number.remainder(x).equals(zero);
        let mut pow_x_is_a_divisor = x_is_a_divisor;
        let ghost xv = x.val();
        let ghost m0 = m;
        let ghost num0 = number.val();
        let ghost s0 = values(v@);
        let ghost mut j: nat = 0;
        proof {
            if x_is_a_divisor {
                lemma_least_factor_prime(xv, num0);
                assert(divides(xv, num0));
            }
            assert(power(xv, 0) == 1);
            assert(power(xv, 1) == xv * power(xv, 0));
            assert(m0 * power(xv, 0) == m0);
            assert(num0 * power(xv, 0) == num0);
            assert(values(v@).take(v_len as int) =~= s0);
        }
        while pow_x_is_a_divisor
            invariant
                nv == n.val(),
                w == T::width(),
                nv < pow2(w),
                zero.val() == 0,
                nv >= 1,
                xv == x.val(),
                xv >= 3,
                m0 > 0,
                num0 >= 1,
                nv == m0 * num0,
                v_len == s0.len(),
                v_len <= v@.len(),
                values(v@).take(v_len as int) == s0,
                lists_divisors(s0, m0),
                coprime(m0, num0),
                x_is_a_divisor ==> is_prime(xv),
                (j > 0 || pow_x_is_a_divisor) ==> x_is_a_divisor,
                num0 == number.val() * power(xv, j),
                number.val() >= 1,
                lists_divisors(values(v@), m0 * power(xv, j)),
                pow_x_is_a_divisor == divides(xv, number.val()),
                pow_x_is_a_divisor ==> pow_x.val() == power(xv, j + 1),
            decreases number.val(),
        {
            let ghost before = values(v@);
            proof {
                assert(!divides(xv, m0)) by {
                    lemma_divides_intro(xv, number.val() / xv);
                    lemma_divides_elim(xv, number.val());
                    lemma_divides_intro(number.val(), power(xv, j));
                    lemma_divides_trans(xv, number.val(), num0);
                    assert(divides(xv, num0));
                }
                lemma_expand(before, v_len as int, m0, xv, j + 1);
                lemma_power_pos(xv, j + 1);
                lemma_divides_elim(xv, number.val());
                assert(power(xv, j + 1) == xv * power(xv, j));
                assert(num0 == (number.val() / xv) * power(xv, j + 1)) by (nonlinear_arith)
                    requires
                        num0 == number.val() * power(xv, j),
                        number.val() == xv * (number.val() / xv),
                        power(xv, j + 1) == xv * power(xv, j),
                ;
                assert forall|i: int| 0 <= i < v_len implies pow_x.val() * (#[trigger] v@[i]).val()
                    < pow2(T::width()) by {
                    let e = v@[i].val();
                    assert(s0[i] == e);
                    assert(s0.contains(e));
                    lemma_divides_intro(power(xv, j + 1), number.val() / xv);
                    assert(power(xv, j + 1) * (number.val() / xv) == num0) by (nonlinear_arith)
                        requires
                            num0 == (number.val() / xv) * power(xv, j + 1),
                    ;
                    lemma_divides_mul(power(xv, j + 1), num0, e, m0);
                    assert(num0 * m0 == nv) by (nonlinear_arith)
                        requires
                            nv == m0 * num0,
                    ;
                    lemma_divides_le(power(xv, j + 1) * e, nv);
                }
            }
            let ghost num_before = number.val();
            number = number.quotient(x);
            proof {
                assert(number.val() >= 1 && number.val() < num_before) by (nonlinear_arith)
                    requires
                        num_before == xv * (num_before / xv),
                        number.val() == num_before / xv,
                        num_before >= 1,
                        xv >= 3,
                ;
            }
            v.push(pow_x);
            push_new_divisors(&mut v, v_len, pow_x);
            proof {
                assert(before.push(pow_x.val()).take(v_len as int) =~= before.take(v_len as int));
                assert(values(v@) =~= expand(before, v_len as int, power(xv, j + 1)));
                assert(values(v@).take(v_len as int) =~= s0);
                j = j + 1;
            }
            pow_x_is_a_divisor = number.remainder(x).equals(zero);
            if pow_x_is_a_divisor {
                proof {
                    lemma_divides_elim(xv, number.val());
                    lemma_power_pos(xv, j);
                    assert(num0 == (number.val() / xv) * (power(xv, j) * xv)) by (nonlinear_arith)
                        requires
                            num0 == number.val() * power(xv, j),
                            number.val() == xv * (number.val() / xv),
                    ;
                    assert(power(xv, j) * xv <= nv) by (nonlinear_arith)
                        requires
                            num0 == (number.val() / xv) * (power(xv, j) * xv),
                            num0 >= 1,
                            nv == m0 * num0,
                            m0 > 0,
                    ;
                    assert(power(xv, j + 1) == xv * power(xv, j));
                }
                pow_x = pow_x.times(x);
            }
        }
        proof {
            if x_is_a_divisor {
                assert(!divides(xv, m0)) by {
                    if divides(xv, m0) {
                        assert(divides(xv, num0));
                    }
                }
                lemma_coprime_step(m0, num0, xv, j, number.val());
                m = m0 * power(xv, j);
                lemma_power_pos(xv, j);
                assert(m > 0) by (nonlinear_arith)
                    requires
                        m == m0 * power(xv, j),
                        m0 > 0,
                        power(xv, j) > 0,
                ;
                assert(nv == m * number.val()) by (nonlinear_arith)
                    requires
                        nv == m0 * num0,
                        num0 == number.val() * power(xv, j),
                        m == m0 * power(xv, j),
                ;
            } else {
                assert(j == 0);
                assert(power(xv, j) == 1);
                assert(num0 == number.val() * 1);
            }
            lemma_power_pos(xv, j);
            lemma_divides_intro(number.val(), power(xv, j));
            lemma_next_candidate(xv, num0, number.val());
            number.lemma_bounded();
        }
        if x_is_a_divisor {
            proof {
                lemma_sqrt_bound_fits(number.val(), w);
            }
            number_sqrt = approximated_sqrt(number);
        }
        x = x.plus(two);
    }
    proof {
        lemma_sqrt_bound_exceeds_root(number.val());
        let b = sqrt_bound(number.val());
        assert(number.val() < x.val() * x.val()) by (nonlinear_arith)
            requires
                number.val() < b * b,
                b <= x.val(),
        ;
        if number.val() >= 2 {
            lemma_no_small_factor_prime(number.val(), x.val());
        }
    }
    if one.less_than(number) && !number.equals(n) {
        let v_len = v.len();
        let ghost before = values(v@);
        let ghost p = number.val();
        proof {
            lemma_divides_intro(p, 1);
            assert(divides(p, p));
            assert(!divides(p, m));
            assert(power(p, 0) == 1);
            assert(m * power(p, 0) == m) by (nonlinear_arith)
                requires
                    power(p, 0) == 1,
            ;
            assert(power(p, 1) == p * power(p, 0));
            assert(before.take(v_len as int) =~= before);
            lemma_expand(before, v_len as int, m, p, 1);
            assert forall|i: int| 0 <= i < v_len implies p * (#[trigger] v@[i]).val() < pow2(
                T::width(),
            ) by {
                let e = v@[i].val();
                assert(before[i] == e);
                assert(before.contains(e));
                lemma_divides_intro(p, 1);
                lemma_divides_mul(p, p, e, m);
                assert(p * m == nv) by (nonlinear_arith)
                    requires
                        nv == m * number.val(),
                        p == number.val(),
                ;
                lemma_divides_le(p * e, nv);
            }
        }
        v.push(number);
        push_new_divisors(&mut v, v_len, number);
        proof {
            assert(before.push(p).take(v_len as int) =~= before.take(v_len as int));
            assert(values(v@) =~= expand(before, v_len as int, p));
            assert(m * p == nv);
        }
    } else {
        proof {
            if number.val() == 1 {
                assert(m == nv);
            } else {
                assert(m == 1) by (nonlinear_arith)
                    requires
                        nv == m * number.val(),
                        number.val() == nv,
                        nv >= 1,
                ;
                lemma_lists_one(values(v@));
            }
        }
    }
    // What was collected is every divisor above 1, `n` included, so the
    // largest entry goes whenever there is one; for `n = 2` that is the
    // single entry.
    if v.len() > 0 {
        let mut sorted = sort_ascending(&v);
        proof {
            assert(values(v@).contains(values(v@)[0]));
            lemma_divides_le(values(v@)[0], nv);
            assert(lists_divisors(values(v@), nv));
        }
        let ghost full = values(sorted@);
        assert(full.contains(values(v@)[0]));
        sorted.pop();
        proof {
            assert(values(sorted@) =~= full.drop_last());
            lemma_drop_largest(full, nv);
        }
        sorted
    } else {
        proof {
            assert forall|d: nat| !#[trigger] is_proper_divisor(d, nv) by {
                if is_proper_divisor(d, nv) {
                    if lists_divisors(values(v@), nv) {
                        assert(values(v@).contains(d));
                    } else {
                        assert(is_prime(nv));
                    }
                }
            }
        }
        v
    }
}

/// The list of proper divisors of `n` is determined by `n`: any two lists
/// that `get_divisors` may return for the same `n` are equal, entry for entry.
pub proof fn lemma_divisor_list_deterministic(s1: Seq<nat>, s2: Seq<nat>, n: nat)
    requires
        is_divisor_list(s1, n),
        is_divisor_list(s2, n),
    ensures
        s1 == s2,
{
    lemma_ascending_unique(s1, s2);
}

/// Zero, one and every prime have no proper divisors: their list is empty.
pub proof fn lemma_no_divisors_for_one_and_primes(s: Seq<nat>, n: nat)
    requires
        n <= 1 || is_prime(n),
        is_divisor_list(s, n),
    ensures
        s.len() == 0,
{
    if s.len() > 0 {
        let d = s[0];
        assert(s.contains(d));
        assert(is_proper_divisor(d, n));
        assert(!divides(d, n));
    }
}

/// For `n = 2^k` with `k >= 1`, the list is `2, 4, ..., 2^(k - 1)`.
pub proof fn lemma_divisors_of_power_of_two(s: Seq<nat>, k: nat)
    requires
        k >= 1,
        is_divisor_list(s, pow2(k)),
    ensures
        s == Seq::new((k - 1) as nat, |i: int| pow2((i + 1) as nat)),
{
    let n = pow2(k);
    let t = Seq::new((k - 1) as nat, |i: int| pow2((i + 1) as nat));
    assert forall|i: int, j: int| 0 <= i < j < t.len() implies t[i] < t[j] by {
        lemma_pow2_strictly_increases((i + 1) as nat, (j + 1) as nat);
    }
    lemma_power_two(k);
    assert forall|d: nat| #[trigger] t.contains(d) <==> is_proper_divisor(d, n) by {
        if t.contains(d) {
            let i = choose|i: int| 0 <= i < t.len() && t[i] == d;
            let e = (i + 1) as nat;
            lemma2_to64();
            lemma_pow2_strictly_increases(0, e);
            lemma_pow2_strictly_increases(e, k);
            lemma_pow2_adds(e, (k - e) as nat);
            lemma_pow2_pos(e);
            lemma_divides_intro(pow2(e), pow2((k - e) as nat));
        }
        if is_proper_divisor(d, n) {
            assert(is_prime(2));
            assert(!divides(2, 1));
            assert(1 * power(2, k) == n);
            let j = lemma_split_divisor(2, 1, k, d);
            let q = d / power(2, j);
            lemma_divides_le(q, 1);
            assert(q != 0) by (nonlinear_arith)
                requires
                    d == power(2, j) * q,
                    d > 1,
            ;
            assert(q == 1);
            assert(d == power(2, j)) by (nonlinear_arith)
                requires
                    d == power(2, j) * q,
                    q == 1,
            ;
            lemma_power_two(j);
            lemma2_to64();
            if j == 0 {
            } else if j >= k {
                if j > k {
                    lemma_pow2_strictly_increases(k, j);
                }
            } else {
                assert(t[j - 1] == d);
            }
        }
    }
    lemma_ascending_unique(s, t);
}

} // verus!
