//! Powers of natural numbers, by which the enumerators count and number programs.
use vstd::prelude::*;

verus! {

/// `k` to the power `n`.
pub open spec fn power(k: nat, n: nat) -> nat
    decreases n,
{
    if n == 0 {
        1
    } else {
        k * power(k, (n - 1) as nat)
    }
}

/// The digit of `idx` at place `t` when `idx` is written to the base `k`, the
/// least significant place being place 0.
pub open spec fn digit(idx: nat, k: nat, t: nat) -> int {
    (idx as int / power(k, t) as int) % (k as int)
}

/// A power of a positive number is positive.
pub proof fn lemma_power_positive(k: nat, n: nat)
    requires
        k >= 1,
    ensures
        power(k, n) >= 1,
    decreases n,
{
    if n > 0 {
        lemma_power_positive(k, (n - 1) as nat);
        let p = power(k, (n - 1) as nat);
        assert(k * p >= 1) by (nonlinear_arith)
            requires
                k >= 1,
                p >= 1,
        ;
    }
}

/// The powers of a positive number do not fall as the exponent grows.
pub proof fn lemma_power_increases(k: nat, n1: nat, n2: nat)
    requires
        k >= 1,
        n1 <= n2,
    ensures
        power(k, n1) <= power(k, n2),
    decreases n2,
{
    if n1 < n2 {
        lemma_power_increases(k, n1, (n2 - 1) as nat);
        let p = power(k, (n2 - 1) as nat);
        assert(k * p >= p) by (nonlinear_arith)
            requires
                k >= 1,
                p >= 0,
        ;
    }
}

/// A power does not fall as the base grows.
pub proof fn lemma_power_base_increases(k1: nat, k2: nat, n: nat)
    requires
        k1 <= k2,
    ensures
        power(k1, n) <= power(k2, n),
    decreases n,
{
    if n > 0 {
        lemma_power_base_increases(k1, k2, (n - 1) as nat);
        let smaller = power(k1, (n - 1) as nat);
        let greater = power(k2, (n - 1) as nat);
        assert(k1 * smaller <= k2 * greater) by (nonlinear_arith)
            requires
                k1 <= k2,
                smaller <= greater,
        ;
    }
}

/// Dividing by a power and then by the base is dividing by the next power.
pub proof fn lemma_power_div(x: nat, k: nat, n: nat)
    requires
        k >= 1,
    ensures
        (x as int / power(k, n) as int) / (k as int) == x as int / power(k, n + 1) as int,
{
    lemma_power_positive(k, n);
    vstd::arithmetic::div_mod::lemma_div_denominator(x as int, power(k, n) as int, k as int);
    assert(power(k, n + 1) == k * power(k, n));
    assert(power(k, n) * k == k * power(k, n)) by (nonlinear_arith);
}

/// A power with an exponent of at least 1 is at least the base.
pub proof fn lemma_power_at_least_base(k: nat, n: nat)
    requires
        k >= 1,
        n >= 1,
    ensures
        k <= power(k, n),
{
    lemma_power_increases(k, 1, n);
    assert(power(k, 1) == k * power(k, 0));
    assert(power(k, 0) == 1);
}

/// Whether `k` to the power `n` can be held in a `usize`.
pub fn power_fits(k: usize, n: usize) -> (b: bool)
    requires
        k >= 1,
    ensures
        b == (power(k as nat, n as nat) <= usize::MAX),
{
    let mut total: usize = 1;
    let mut j: usize = 0;
    while j < n
        invariant
            k >= 1,
            j <= n,
            total == power(k as nat, j as nat),
        decreases n - j,
    {
        assert(power(k as nat, (j + 1) as nat) == k * power(k as nat, j as nat));
        assert(total * k == k * total) by (nonlinear_arith);
        match total.checked_mul(k) {
            Some(next) => {
                total = next;
            },
            None => {
                proof {
                    lemma_power_increases(k as nat, (j + 1) as nat, n as nat);
                }
                return false;
            },
        }
        j += 1;
    }
    true
}

/// The square of a positive base is one of its powers from the second on.
pub proof fn lemma_power_square(k: nat, n: nat)
    requires
        k >= 1,
        n >= 1,
    ensures
        k <= k * k <= power(k, 2 * n),
{
    lemma_power_increases(k, 2, 2 * n);
    assert(power(k, 2) == k * power(k, 1));
    assert(power(k, 1) == k * power(k, 0));
    assert(power(k, 0) == 1);
    assert(k * power(k, 1) == k * k) by (nonlinear_arith)
        requires
            power(k, 1) == k * 1,
    ;
    assert(k <= k * k) by (nonlinear_arith)
        requires
            k >= 1,
    ;
}

/// Two more factors of the base give the power with the exponent two higher.
pub proof fn lemma_power_two_more(k: nat, n: nat)
    ensures
        power(k, n + 2) == power(k, n) * (k * k),
{
    let p = power(k, n);
    assert(power(k, n + 2) == k * power(k, n + 1));
    assert(power(k, n + 1) == k * p);
    assert(k * (k * p) == p * (k * k)) by (nonlinear_arith);
}

/// A number taken modulo `4 * m` splits into its remainder modulo `m` and the
/// last two bits of its quotient by `m`; and dividing by `m`, by 2 and by 2
/// again is dividing by `4 * m`.
pub proof fn lemma_split_choice(x: nat, m: nat)
    requires
        m >= 1,
    ensures
        (x as int % (4 * m) as int) % (m as int) == x as int % (m as int),
        (x as int % (4 * m) as int) / (m as int) == (x as int / (m as int)) % 4,
        ((x as int / (m as int)) / 2) / 2 == x as int / (4 * m) as int,
{
    let xi = x as int;
    let mi = m as int;
    vstd::arithmetic::div_mod::lemma_breakdown(xi, mi, 4);
    assert(mi * 4 == 4 * m);
    let q = (xi / mi) % 4;
    let r = xi % mi;
    assert(mi * q == q * mi) by (nonlinear_arith);
    vstd::arithmetic::div_mod::lemma_fundamental_div_mod_converse(xi % (4 * m) as int, mi, q, r);
    vstd::arithmetic::div_mod::lemma_div_denominator(xi, mi, 2);
    vstd::arithmetic::div_mod::lemma_div_denominator(xi, mi * 2, 2);
    assert(mi * 2 * 2 == 4 * m);
}

/// The number with the digits `d` to the base `b`, the least significant first.
pub open spec fn compose(d: Seq<int>, b: nat) -> int
    decreases d.len(),
{
    if d.len() == 0 {
        0
    } else {
        d[0] + b * compose(d.skip(1), b)
    }
}

/// The first `len` digits of `x` to the base `b`, the least significant first.
pub open spec fn digits(x: nat, b: nat, len: nat) -> Seq<int> {
    Seq::new(len, |t: int| digit(x, b, t as nat))
}

/// The lowest digit is the remainder by the base, and the digit at the next
/// place is the digit of the quotient at this place.
pub proof fn lemma_digit_shift(x: nat, b: nat, t: nat)
    requires
        b >= 1,
    ensures
        digit(x, b, 0) == x as int % (b as int),
        digit(x, b, t + 1) == digit((x / b) as nat, b, t),
{
    assert(power(b, 0) == 1);
    lemma_power_positive(b, t);
    assert(power(b, t + 1) == b * power(b, t));
    vstd::arithmetic::div_mod::lemma_div_denominator(x as int, b as int, power(b, t) as int);
    vstd::arithmetic::div_mod::lemma_div_pos_is_pos(x as int, b as int);
}

/// The number composed of digits is below the power of the base with their
/// number as exponent, and its digits are the digits that it was composed of.
pub proof fn lemma_digits_of_composed(d: Seq<int>, b: nat)
    requires
        b >= 1,
        forall|t: int| 0 <= t < d.len() ==> 0 <= #[trigger] d[t] < b,
    ensures
        0 <= compose(d, b) < power(b, d.len()),
        forall|t: int| 0 <= t < d.len() ==> digit(compose(d, b) as nat, b, t as nat) == #[trigger] d[t],
    decreases d.len(),
{
    if d.len() > 0 {
        let rest = d.skip(1);
        let high = compose(rest, b);
        let x = compose(d, b);
        assert forall|t: int| 0 <= t < rest.len() implies 0 <= #[trigger] rest[t] < b by {
            assert(rest[t] == d[t + 1]);
        }
        lemma_digits_of_composed(rest, b);
        let p = power(b, rest.len());
        assert(power(b, d.len()) == b * p);
        assert(b * high <= b * p - b) by (nonlinear_arith)
            requires
                0 <= high <= p - 1,
                b >= 1,
        ;
        assert(0 <= b * high) by (nonlinear_arith)
            requires
                0 <= high,
                b >= 1,
        ;
        assert(high * b == b * high) by (nonlinear_arith);
        vstd::arithmetic::div_mod::lemma_fundamental_div_mod_converse(x, b as int, high, d[0]);
        assert forall|t: int| 0 <= t < d.len() implies digit(x as nat, b, t as nat)
            == #[trigger] d[t] by {
            if t == 0 {
                lemma_digit_shift(x as nat, b, 0);
            } else {
                lemma_digit_shift(x as nat, b, (t - 1) as nat);
                assert(rest[t - 1] == d[t]);
            }
        }
    }
}

/// A number below a power of the base is the number composed of that many of
/// its digits.
pub proof fn lemma_composed_of_digits(x: nat, b: nat, len: nat)
    requires
        b >= 1,
        x < power(b, len),
    ensures
        compose(digits(x, b, len), b) == x,
    decreases len,
{
    let d = digits(x, b, len);
    if len > 0 {
        let q = (x / b) as nat;
        let p = power(b, (len - 1) as nat);
        vstd::arithmetic::div_mod::lemma_fundamental_div_mod(x as int, b as int);
        vstd::arithmetic::div_mod::lemma_div_pos_is_pos(x as int, b as int);
        assert(power(b, len) == b * p);
        assert(q < p) by (nonlinear_arith)
            requires
                x == b * q + (x as int % (b as int)),
                0 <= x as int % (b as int),
                x < b * p,
                b >= 1,
        ;
        lemma_composed_of_digits(q, b, (len - 1) as nat);
        assert forall|t: int| 0 <= t < len - 1 implies d.skip(1)[t] == digits(
            q,
            b,
            (len - 1) as nat,
        )[t] by {
            lemma_digit_shift(x, b, t as nat);
        }
        assert(d.skip(1) =~= digits(q, b, (len - 1) as nat));
        lemma_digit_shift(x, b, 0);
    }
}

/// A number below `n * d` has a quotient by `d` below `n`, and is that
/// quotient times `d` and the remainder.
pub proof fn lemma_div_mod_split(x: int, d: int, n: int)
    requires
        d >= 1,
        0 <= x < n * d,
    ensures
        0 <= x / d < n,
        0 <= x % d < d,
        x == (x / d) * d + x % d,
{
    vstd::arithmetic::div_mod::lemma_fundamental_div_mod(x, d);
    vstd::arithmetic::div_mod::lemma_div_pos_is_pos(x, d);
    let q = x / d;
    assert(d * q == q * d) by (nonlinear_arith);
    assert(q < n) by (nonlinear_arith)
        requires
            x == q * d + x % d,
            0 <= x % d,
            x < n * d,
            d >= 1,
    ;
}

/// The quotient and the remainder of `q * d + r` by `d` are `q` and `r`,
/// where `r` is below `d`.
pub proof fn lemma_div_mod_join(q: int, r: int, d: int)
    requires
        0 <= r < d,
    ensures
        (q * d + r) / d == q,
        (q * d + r) % d == r,
{
    vstd::arithmetic::div_mod::lemma_fundamental_div_mod_converse(q * d + r, d, q, r);
}

/// Whether a program of the size `size` with the number `index` among the
/// programs of its size comes at or after the program of the size `n` with
/// the number `idx`, and is no larger than `max_size`.
pub open spec fn comes_from(max_size: nat, n: nat, idx: nat, size: nat, index: int) -> bool {
    size <= max_size && (size > n || (size == n && index >= idx))
}

} // verus!
