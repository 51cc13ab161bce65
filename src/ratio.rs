//! Exact rational numbers held in lowest terms, with checked arithmetic.

use vstd::prelude::*;
use vstd::arithmetic::div_mod::*;

verus! {

/// A numerator or denominator may take any `i128` value but the most negative,
/// so that every value can be negated.
pub open spec fn fits(x: int) -> bool {
    -(i128::MAX as int) <= x <= i128::MAX as int
}

pub open spec fn abs(x: int) -> nat {
    if x < 0 {
        (-x) as nat
    } else {
        x as nat
    }
}

/// Greatest common divisor, by Euclid's algorithm.
pub open spec fn gcd(a: nat, b: nat) -> nat
    decreases b,
{
    if b == 0 {
        a
    } else {
        gcd(b, a % b)
    }
}

/// A fraction `num / den`. A well-formed one has a positive denominator and no
/// common factor left between numerator and denominator.
#[derive(Clone, Copy, Debug, PartialEq, Eq)]
pub struct Ratio {
    pub num: i128,
    pub den: i128,
}

/// The fraction `n / d` (with `d > 0`) brought to lowest terms.
pub open spec fn lowest(n: int, d: int) -> Ratio {
    Ratio { num: lowest_num(n, d) as i128, den: lowest_den(n, d) as i128 }
}

pub open spec fn lowest_num(n: int, d: int) -> int {
    let m = (abs(n) / gcd(abs(n), d as nat)) as int;
    if n < 0 {
        -m
    } else {
        m
    }
}

pub open spec fn lowest_den(n: int, d: int) -> int {
    d / (gcd(abs(n), d as nat) as int)
}

/// `n / d` in lowest terms, where both fit.
pub open spec fn lowest_opt(n: int, d: int) -> Option<Ratio> {
    if fits(n) && fits(d) && d > 0 {
        Some(lowest(n, d))
    } else {
        None
    }
}

/// `n / g` rounded toward zero.
pub open spec fn div_trunc(n: int, g: int) -> int {
    if n < 0 {
        -((-n) / g)
    } else {
        n / g
    }
}

/// The exact sum over the least common denominator, unless a cross product
/// leaves the range.
pub open spec fn sum(a: Ratio, b: Ratio) -> Option<Ratio> {
    let g = gcd(a.den as nat, b.den as nat) as int;
    let x = (a.num as int) * ((b.den as int) / g);
    let y = (b.num as int) * ((a.den as int) / g);
    let z = ((a.den as int) / g) * (b.den as int);
    if fits(x) && fits(y) && fits(z) {
        lowest_opt(x + y, z)
    } else {
        None
    }
}

/// The exact difference over the least common denominator, unless a cross
/// product leaves the range.
pub open spec fn difference(a: Ratio, b: Ratio) -> Option<Ratio> {
    let g = gcd(a.den as nat, b.den as nat) as int;
    let x = (a.num as int) * ((b.den as int) / g);
    let y = (b.num as int) * ((a.den as int) / g);
    let z = ((a.den as int) / g) * (b.den as int);
    if fits(x) && fits(y) && fits(z) {
        lowest_opt(x - y, z)
    } else {
        None
    }
}

/// The exact product, with common factors cancelled crosswise first, unless
/// it leaves the range.
pub open spec fn product(a: Ratio, b: Ratio) -> Option<Ratio> {
    let g1 = gcd(abs(a.num as int), b.den as nat) as int;
    let g2 = gcd(abs(b.num as int), a.den as nat) as int;
    lowest_opt(div_trunc(a.num as int, g1) * div_trunc(b.num as int, g2), ((a.den as int) / g2) * ((b.den as int) / g1))
}

/// The exact quotient, with common factors cancelled crosswise first, unless
/// `b` is zero or the quotient leaves the range.
pub open spec fn quotient(a: Ratio, b: Ratio) -> Option<Ratio> {
    if b.num == 0 {
        None
    } else {
        let g1 = gcd(abs(a.num as int), abs(b.num as int)) as int;
        let g2 = gcd(a.den as nat, b.den as nat) as int;
        let x = div_trunc(a.num as int, g1) * ((b.den as int) / g2);
        let z = ((a.den as int) / g2) * ((abs(b.num as int) as int) / g1);
        lowest_opt(if b.num < 0 { -x } else { x }, z)
    }
}

/// Arithmetic on values that may be missing: a missing operand, or a result
/// out of range, gives a missing result.
pub open spec fn opt_sum(a: Option<Ratio>, b: Option<Ratio>) -> Option<Ratio> {
    match (a, b) {
        (Some(x), Some(y)) => sum(x, y),
        _ => None,
    }
}

pub open spec fn opt_difference(a: Option<Ratio>, b: Option<Ratio>) -> Option<Ratio> {
    match (a, b) {
        (Some(x), Some(y)) => difference(x, y),
        _ => None,
    }
}

pub open spec fn opt_product(a: Option<Ratio>, b: Option<Ratio>) -> Option<Ratio> {
    match (a, b) {
        (Some(x), Some(y)) => product(x, y),
        _ => None,
    }
}

/// Division by zero gives a missing result too.
pub open spec fn opt_quotient(a: Option<Ratio>, b: Option<Ratio>) -> Option<Ratio> {
    match (a, b) {
        (Some(x), Some(y)) => quotient(x, y),
        _ => None,
    }
}

pub open spec fn opt_wf(a: Option<Ratio>) -> bool {
    a matches Some(x) ==> x.wf()
}

impl Ratio {
    pub open spec fn wf(self) -> bool {
        &&& self.den > 0
        &&& fits(self.num as int)
        &&& gcd(abs(self.num as int), self.den as nat) == 1
    }

    /// Whether `0 <= self <= 1`.
    pub open spec fn in_unit(self) -> bool {
        0 <= self.num <= self.den
    }
}

pub open spec fn int_ratio(n: int) -> Ratio {
    Ratio { num: n as i128, den: 1 }
}

pub open spec fn zero() -> Ratio {
    int_ratio(0)
}

pub open spec fn one() -> Ratio {
    int_ratio(1)
}

proof fn lemma_mod_shrinks(a: nat, b: nat)
    requires
        b > 0,
    ensures
        a % b < b,
{
    lemma_mod_bound(a as int, b as int);
}

pub proof fn lemma_gcd_pos(a: nat, b: nat)
    requires
        a > 0 || b > 0,
    ensures
        gcd(a, b) > 0,
    decreases b,
{
    if b > 0 {
        lemma_mod_shrinks(a, b);
        lemma_gcd_pos(b, a % b);
    }
}

pub proof fn lemma_gcd_le(a: nat, b: nat)
    requires
        b > 0,
    ensures
        gcd(a, b) <= b,
    decreases b,
{
    lemma_mod_shrinks(a, b);
    if a % b > 0 {
        lemma_gcd_le(b, a % b);
    } else {
        assert(gcd(b, 0) == b);
    }
}

proof fn lemma_mod_scale(k: nat, a: nat, b: nat)
    requires
        k > 0,
        b > 0,
    ensures
        (k * a) % (k * b) == k * (a % b),
{
    lemma_fundamental_div_mod(a as int, b as int);
    lemma_mod_bound(a as int, b as int);
    let q = a / b;
    let r = a % b;
    assert(k * a == q * (k * b) + k * r) by (nonlinear_arith)
        requires
            a == b * q + r,
    ;
    assert(0 <= k * r < k * b) by (nonlinear_arith)
        requires
            0 <= r < b,
            k > 0,
    ;
    lemma_fundamental_div_mod_converse_mod((k * a) as int, (k * b) as int, q as int, (k * r) as int);
}

pub proof fn lemma_gcd_le_first(a: nat, b: nat)
    requires
        a > 0,
    ensures
        gcd(a, b) <= a,
{
    if b > 0 {
        lemma_mod_shrinks(a, b);
        if a < b {
            lemma_small_mod(a, b);
            lemma_gcd_le(b, a);
        } else {
            lemma_gcd_le(a, b);
        }
    }
}

/// Scaling both arguments scales the greatest common divisor.
pub proof fn lemma_gcd_scale(k: nat, a: nat, b: nat)
    requires
        k > 0,
    ensures
        gcd(k * a, k * b) == k * gcd(a, b),
    decreases b,
{
    if b == 0 {
        assert(k * b == 0) by (nonlinear_arith)
            requires
                b == 0,
        ;
    } else {
        assert(k * b > 0) by (nonlinear_arith)
            requires
                k > 0,
                b > 0,
        ;
        lemma_mod_shrinks(a, b);
        lemma_mod_scale(k, a, b);
        lemma_gcd_scale(k, b, a % b);
    }
}

/// The greatest common divisor divides both arguments.
pub proof fn lemma_gcd_divides(a: nat, b: nat)
    requires
        a > 0 || b > 0,
    ensures
        gcd(a, b) > 0,
        a % gcd(a, b) == 0,
        b % gcd(a, b) == 0,
    decreases b,
{
    lemma_gcd_pos(a, b);
    let g = gcd(a, b);
    if b == 0 {
        lemma_mod_self_0(a as int);
        lemma_mod_of_zero(g as int);
    } else {
        lemma_mod_shrinks(a, b);
        lemma_gcd_divides(b, a % b);
        let r = a % b;
        lemma_fundamental_div_mod(b as int, g as int);
        lemma_fundamental_div_mod(r as int, g as int);
        lemma_fundamental_div_mod(a as int, b as int);
        let kb = b / g;
        let kr = r / g;
        let q = a / b;
        assert(a == g * (q * kb + kr)) by (nonlinear_arith)
            requires
                b == g * kb,
                r == g * kr,
                a == b * q + r,
        ;
        assert(q * kb + kr >= 0) by (nonlinear_arith)
            requires
                q >= 0,
                kb >= 0,
                kr >= 0,
        ;
        lemma_mod_multiples_basic((q * kb + kr) as int, g as int);
        assert((q * kb + kr) * g == g * (q * kb + kr)) by (nonlinear_arith);
    }
}

proof fn lemma_mod_of_zero(g: int)
    requires
        g > 0,
    ensures
        0int % g == 0,
{
}

/// Dividing by the greatest common divisor leaves coprime numbers.
pub proof fn lemma_lowest_coprime(a: nat, b: nat)
    requires
        b > 0,
    ensures
        gcd(a / gcd(a, b), b / gcd(a, b)) == 1,
{
    lemma_gcd_divides(a, b);
    let g = gcd(a, b);
    lemma_fundamental_div_mod(a as int, g as int);
    lemma_fundamental_div_mod(b as int, g as int);
    let a1 = a / g;
    let b1 = b / g;
    lemma_gcd_scale(g, a1, b1);
    assert(g * gcd(a1, b1) == g * 1);
    lemma_mul_cancel(g as int, gcd(a1, b1) as int, 1);
}

proof fn lemma_mul_cancel(g: int, x: int, y: int)
    requires
        g > 0,
        g * x == g * y,
    ensures
        x == y,
{
    assert(x == y) by (nonlinear_arith)
        requires
            g > 0,
            g * x == g * y,
    ;
}

/// What `lowest` gives is well-formed, and no larger than what it was given.
pub proof fn lemma_lowest_wf(n: int, d: int)
    requires
        fits(n),
        d > 0,
        fits(d),
    ensures
        lowest(n, d).wf(),
        lowest(n, d).num as int == lowest_num(n, d),
        lowest(n, d).den as int == lowest_den(n, d),
{
    let a = abs(n);
    lemma_gcd_pos(a, d as nat);
    lemma_gcd_le(a, d as nat);
    let g = gcd(a, d as nat);
    lemma_div_is_ordered_by_denominator(a as int, 1, g as int);
    lemma_div_is_ordered_by_denominator(d, 1, g as int);
    lemma_div_by_self(g as int);
    lemma_div_is_ordered(g as int, d, g as int);
    lemma_lowest_coprime(a, d as nat);
    let m = a / g;
    if n < 0 {
        assert(abs(-m) == m);
    }
}

/// `a < b` as values.
pub open spec fn less(a: Ratio, b: Ratio) -> bool {
    a.num * b.den < b.num * a.den
}

/// Bringing a fraction to lowest terms keeps its value.
pub proof fn lemma_lowest_value(n: int, d: int)
    requires
        fits(n),
        fits(d),
        d > 0,
    ensures
        lowest(n, d).num * d == n * lowest(n, d).den,
        0 < lowest(n, d).den <= d,
        abs(lowest(n, d).num as int) <= abs(n),
        n >= 0 ==> lowest(n, d).num >= 0,
{
    lemma_lowest_wf(n, d);
    let a = abs(n);
    lemma_gcd_divides(a, d as nat);
    let g = gcd(a, d as nat);
    lemma_div_pos_is_pos(a as int, g as int);
    lemma_fundamental_div_mod(a as int, g as int);
    lemma_fundamental_div_mod(d, g as int);
    let a1 = a / g;
    let d1 = d / (g as int);
    assert(a1 * d == a * d1) by (nonlinear_arith)
        requires
            a == g * a1,
            d == g * d1,
    ;
    lemma_gcd_le(a, d as nat);
    lemma_div_is_ordered_by_denominator(a as int, 1, g as int);
    lemma_div_is_ordered_by_denominator(d, 1, g as int);
    lemma_div_by_self(g as int);
    lemma_div_is_ordered(g as int, d, g as int);
    if n < 0 {
        assert(-a1 * d == n * d1) by (nonlinear_arith)
            requires
                a1 * d == a * d1,
                a == -n,
        ;
    }
}

/// The fraction `i / n` for `0 <= i <= n`, in lowest terms, lies in `[0, 1]`.
pub proof fn lemma_lowest_unit(i: int, n: int)
    requires
        0 <= i <= n,
        fits(n),
        n > 0,
    ensures
        lowest(i, n).wf(),
        lowest(i, n).in_unit(),
        lowest(i, n).den <= n,
{
    lemma_lowest_wf(i, n);
    lemma_lowest_value(i, n);
    let g = gcd(abs(i), n as nat);
    lemma_gcd_pos(abs(i), n as nat);
    lemma_div_is_ordered(i, n, g as int);
    lemma_div_pos_is_pos(i, g as int);
}

pub proof fn lemma_int_wf(n: int)
    requires
        fits(n),
    ensures
        int_ratio(n).wf(),
        lowest(n, 1) == int_ratio(n),
{
    vstd::arithmetic::div_mod::lemma_mod_self_0(1);
    lemma_small_mod(0, 1);
    assert(abs(n) % 1 == 0) by {
        lemma_mod_multiples_basic(abs(n) as int, 1);
    }
    assert(gcd(abs(n), 1) == gcd(1, 0));
    lemma_div_basics_2(abs(n) as int);
    lemma_div_by_self(1);
    assert(lowest_num(n, 1) == n);
    assert(lowest_den(n, 1) == 1);
}

/// A well-formed fraction is its own lowest form.
pub proof fn lemma_lowest_of_wf(r: Ratio)
    requires
        r.wf(),
    ensures
        lowest(r.num as int, r.den as int) == r,
{
    assert(lowest_num(r.num as int, r.den as int) == r.num);
    assert(lowest_den(r.num as int, r.den as int) == r.den);
}

proof fn lemma_times_zero(x: int, y: int)
    requires
        y == 0,
    ensures
        x * y == 0,
{
}

proof fn lemma_times_one(x: int, y: int)
    requires
        y == 1,
    ensures
        x * y == x,
{
}

/// A fraction in lowest terms is well-formed.
pub proof fn lemma_lowest_opt_wf(n: int, d: int)
    ensures
        lowest_opt(n, d) matches Some(q) ==> q.wf(),
{
    if fits(n) && fits(d) && d > 0 {
        lemma_lowest_wf(n, d);
    }
}

proof fn lemma_abs_mul(x: int, y: int)
    ensures
        abs(x * y) == abs(x) * abs(y),
{
    if x >= 0 && y >= 0 {
        assert(x * y >= 0) by (nonlinear_arith)
            requires
                x >= 0,
                y >= 0,
        ;
    } else if x < 0 && y < 0 {
        assert(x * y == (-x) * (-y) && (-x) * (-y) > 0) by (nonlinear_arith)
            requires
                x < 0,
                y < 0,
        ;
    } else if x < 0 {
        assert(x * y == -((-x) * y) && (-x) * y >= 0) by (nonlinear_arith)
            requires
                x < 0,
                y >= 0,
        ;
    } else {
        assert(x * y == -(x * (-y)) && x * (-y) >= 0) by (nonlinear_arith)
            requires
                x >= 0,
                y < 0,
        ;
    }
}

pub proof fn lemma_div_trunc_one(n: int)
    ensures
        div_trunc(n, 1) == n,
        gcd(abs(n), 1) == 1,
{
    lemma_div_basics_2(abs(n) as int);
    lemma_mod_multiples_basic(abs(n) as int, 1);
    assert(abs(n) % 1 == 0);
    assert(gcd(abs(n), 1) == gcd(1, 0));
}

proof fn lemma_div_trunc_shrinks(n: int, g: int)
    requires
        g > 0,
    ensures
        abs(div_trunc(n, g)) <= abs(n),
        n >= 0 ==> div_trunc(n, g) >= 0,
        g == 1 ==> div_trunc(n, g) == n,
{
    lemma_div_is_ordered_by_denominator(abs(n) as int, 1, g);
    lemma_div_pos_is_pos(abs(n) as int, g);
    lemma_div_basics_2(abs(n) as int);
}

/// A product fits where the product of the numerators and that of the
/// denominators do.
pub proof fn lemma_product_fits(a: Ratio, b: Ratio)
    requires
        a.wf(),
        b.wf(),
        fits(a.num * b.num),
        fits(a.den * b.den),
    ensures
        product(a, b) is Some,
{
    let g1 = gcd(abs(a.num as int), b.den as nat) as int;
    let g2 = gcd(abs(b.num as int), a.den as nat) as int;
    lemma_gcd_pos(abs(a.num as int), b.den as nat);
    lemma_gcd_pos(abs(b.num as int), a.den as nat);
    lemma_gcd_le(abs(a.num as int), b.den as nat);
    lemma_gcd_le(abs(b.num as int), a.den as nat);
    lemma_div_trunc_shrinks(a.num as int, g1);
    lemma_div_trunc_shrinks(b.num as int, g2);
    let x = div_trunc(a.num as int, g1);
    let y = div_trunc(b.num as int, g2);
    let p = (a.den as int) / g2;
    let q = (b.den as int) / g1;
    lemma_div_is_ordered_by_denominator(a.den as int, 1, g2);
    lemma_div_is_ordered_by_denominator(b.den as int, 1, g1);
    lemma_div_by_self(g1);
    lemma_div_by_self(g2);
    lemma_div_is_ordered(g2, a.den as int, g2);
    lemma_div_is_ordered(g1, b.den as int, g1);
    let an = abs(a.num as int) as int;
    let bn = abs(b.num as int) as int;
    lemma_abs_mul(x, y);
    lemma_abs_mul(a.num as int, b.num as int);
    let ax = abs(x) as int;
    let ay = abs(y) as int;
    assert(ax * ay <= an * bn) by (nonlinear_arith)
        requires
            0 <= ax <= an,
            0 <= ay <= bn,
    ;
    assert(0 < p * q <= a.den * b.den) by (nonlinear_arith)
        requires
            0 < p <= a.den,
            0 < q <= b.den,
    ;
}

/// The results of the operations are well-formed.
pub proof fn lemma_results_wf(a: Ratio, b: Ratio)
    ensures
        opt_wf(sum(a, b)),
        opt_wf(difference(a, b)),
        opt_wf(product(a, b)),
        opt_wf(quotient(a, b)),
{
    let g = gcd(a.den as nat, b.den as nat) as int;
    let x = (a.num as int) * ((b.den as int) / g);
    let y = (b.num as int) * ((a.den as int) / g);
    let z = ((a.den as int) / g) * (b.den as int);
    lemma_lowest_opt_wf(x + y, z);
    lemma_lowest_opt_wf(x - y, z);
    let g1 = gcd(abs(a.num as int), b.den as nat) as int;
    let g2 = gcd(abs(b.num as int), a.den as nat) as int;
    lemma_lowest_opt_wf(div_trunc(a.num as int, g1) * div_trunc(b.num as int, g2), ((a.den as int) / g2) * ((b.den as int) / g1));
    if b.num != 0 {
        let h1 = gcd(abs(a.num as int), abs(b.num as int)) as int;
        let h2 = gcd(a.den as nat, b.den as nat) as int;
        let xq = div_trunc(a.num as int, h1) * ((b.den as int) / h2);
        let zq = ((a.den as int) / h2) * ((abs(b.num as int) as int) / h1);
        lemma_lowest_opt_wf(if b.num < 0 { -xq } else { xq }, zq);
    }
}

proof fn lemma_gcd_zero_left(d: nat)
    requires
        d > 0,
    ensures
        gcd(0, d) == d,
{
    lemma_small_mod(0, d);
    assert(gcd(0, d) == gcd(d, 0));
}

proof fn lemma_gcd_one_left(d: nat)
    requires
        d > 0,
    ensures
        gcd(1, d) == 1,
{
    lemma_div_trunc_one(d as int);
    if d > 1 {
        lemma_small_mod(1, d);
        assert(gcd(1, d) == gcd(d, 1));
    } else {
        assert(gcd(1, 1) == gcd(1, 0)) by {
            lemma_mod_self_0(1);
        }
    }
}

/// Zero absorbs products, and adding or taking away zero changes nothing.
pub proof fn lemma_zero_laws(x: Ratio)
    requires
        x.wf(),
    ensures
        product(x, zero()) == Some(zero()),
        product(zero(), x) == Some(zero()),
        sum(x, zero()) == Some(x),
        sum(zero(), x) == Some(x),
        difference(x, zero()) == Some(x),
{
    let n = x.num as int;
    let d = x.den as int;
    lemma_int_wf(0);
    lemma_lowest_of_wf(x);
    lemma_div_trunc_one(n);
    lemma_gcd_zero_left(d as nat);
    lemma_gcd_one_left(d as nat);
    lemma_div_by_self(d);
    lemma_div_basics_2(d);
    lemma_div_by_self(1);
    assert(div_trunc(0, d) == 0) by {
        lemma_div_of0(d);
    }
    lemma_times_zero(n, 0);
    lemma_times_one(n, 1);
    lemma_times_one(d, 1);
    lemma_times_one(1, 1);
    assert(0 * d == 0);
    assert(0 * 1 == 0);
    assert(1 * d == d);
    assert(product(x, zero()) == lowest_opt(0, 1));
    assert(product(zero(), x) == lowest_opt(0, 1));
    assert(sum(x, zero()) == lowest_opt(n, d));
    assert(sum(zero(), x) == lowest_opt(n, d));
    assert(difference(x, zero()) == lowest_opt(n, d));
}

pub broadcast proof fn lemma_sum_wf(a: Ratio, b: Ratio)
    ensures
        opt_wf(#[trigger] sum(a, b)),
{
    lemma_results_wf(a, b);
}

pub broadcast proof fn lemma_difference_wf(a: Ratio, b: Ratio)
    ensures
        opt_wf(#[trigger] difference(a, b)),
{
    lemma_results_wf(a, b);
}

pub broadcast proof fn lemma_product_wf(a: Ratio, b: Ratio)
    ensures
        opt_wf(#[trigger] product(a, b)),
{
    lemma_results_wf(a, b);
}

pub broadcast proof fn lemma_quotient_wf(a: Ratio, b: Ratio)
    ensures
        opt_wf(#[trigger] quotient(a, b)),
{
    lemma_results_wf(a, b);
}

/// Multiplying or dividing by one changes nothing.
pub proof fn lemma_one_laws(x: Ratio)
    requires
        x.wf(),
    ensures
        product(x, one()) == Some(x),
        quotient(x, one()) == Some(x),
{
    let n = x.num as int;
    let d = x.den as int;
    lemma_int_wf(1);
    lemma_lowest_of_wf(x);
    lemma_div_trunc_one(n);
    lemma_div_trunc_one(d);
    lemma_gcd_one_left(d as nat);
    lemma_div_basics_2(d);
    lemma_div_by_self(1);
    lemma_times_one(n, 1);
    lemma_times_one(d, 1);
    assert(gcd(abs(1), d as nat) == 1);
    assert(gcd(d as nat, 1) == 1);
    assert(product(x, one()) == lowest_opt(n, d));
    assert(quotient(x, one()) == lowest_opt(n, d));
}

proof fn lemma_div_trunc_exact(n: int, g: int)
    requires
        g > 0,
        abs(n) % (g as nat) == 0,
    ensures
        div_trunc(n, g) * g == n,
{
    lemma_fundamental_div_mod(abs(n) as int, g);
    let m = abs(n) as int;
    let q = m / g;
    assert(q * g == m) by (nonlinear_arith)
        requires
            m == g * q + 0,
    ;
    if n < 0 {
        assert(div_trunc(n, g) == -q);
        assert((-q) * g == -(q * g)) by (nonlinear_arith);
    }
}

proof fn lemma_divides_exact(n: int, g: int)
    requires
        g > 0,
        n >= 0,
        n % g == 0,
    ensures
        (n / g) * g == n,
{
    lemma_fundamental_div_mod(n, g);
    assert((n / g) * g == n) by (nonlinear_arith)
        requires
            n == g * (n / g) + 0,
    ;
}

/// A product stands for the product of the values.
pub proof fn lemma_product_value(a: Ratio, b: Ratio)
    requires
        a.wf(),
        b.wf(),
    ensures
        product(a, b) matches Some(r) ==> r.num * (a.den * b.den) == (a.num * b.num) * r.den,
{
    if let Some(r) = product(a, b) {
        let an = abs(a.num as int);
        let bn = abs(b.num as int);
        lemma_gcd_divides(an, b.den as nat);
        lemma_gcd_divides(bn, a.den as nat);
        let g1 = gcd(an, b.den as nat) as int;
        let g2 = gcd(bn, a.den as nat) as int;
        lemma_div_trunc_exact(a.num as int, g1);
        lemma_div_trunc_exact(b.num as int, g2);
        lemma_divides_exact(b.den as int, g1);
        lemma_divides_exact(a.den as int, g2);
        let x1 = div_trunc(a.num as int, g1);
        let x2 = div_trunc(b.num as int, g2);
        let q1 = (b.den as int) / g1;
        let q2 = (a.den as int) / g2;
        lemma_lowest_value(x1 * x2, q2 * q1);
        let rn = r.num as int;
        let rd = r.den as int;
        let ad = a.den as int;
        let bd = b.den as int;
        let na = a.num as int;
        let nb = b.num as int;
        assert(ad * bd == (q2 * q1) * (g1 * g2)) by (nonlinear_arith)
            requires
                q1 * g1 == bd,
                q2 * g2 == ad,
        ;
        assert(na * nb == (x1 * x2) * (g1 * g2)) by (nonlinear_arith)
            requires
                x1 * g1 == na,
                x2 * g2 == nb,
        ;
        let z = q2 * q1;
        let x = x1 * x2;
        let h = g1 * g2;
        assert(rn * (z * h) == (x * h) * rd) by (nonlinear_arith)
            requires
                rn * z == x * rd,
        ;
    }
}

/// A sum stands for the sum of the values.
pub proof fn lemma_sum_value(a: Ratio, b: Ratio)
    requires
        a.wf(),
        b.wf(),
    ensures
        sum(a, b) matches Some(r) ==> r.num * (a.den * b.den) == (a.num * b.den + b.num * a.den)
            * r.den,
{
    if let Some(r) = sum(a, b) {
        lemma_gcd_divides(a.den as nat, b.den as nat);
        let g = gcd(a.den as nat, b.den as nat) as int;
        lemma_divides_exact(a.den as int, g);
        lemma_divides_exact(b.den as int, g);
        let p = (a.den as int) / g;
        let q = (b.den as int) / g;
        let x = (a.num as int) * q;
        let y = (b.num as int) * p;
        lemma_lowest_value(x + y, p * (b.den as int));
        let rn = r.num as int;
        let rd = r.den as int;
        let ad = a.den as int;
        let bd = b.den as int;
        let na = a.num as int;
        let nb = b.num as int;
        assert(na * bd + nb * ad == (x + y) * g) by (nonlinear_arith)
            requires
                p * g == ad,
                q * g == bd,
                x == na * q,
                y == nb * p,
        ;
        assert(ad * bd == (p * bd) * g) by (nonlinear_arith)
            requires
                p * g == ad,
        ;
        let z = p * bd;
        let w = x + y;
        assert(rn * (z * g) == (w * g) * rd) by (nonlinear_arith)
            requires
                rn * z == w * rd,
        ;
    }
}

/// The difference of two integers is an integer.
pub proof fn lemma_int_difference(a: int, b: int)
    requires
        fits(a),
        fits(b),
        fits(a - b),
    ensures
        difference(int_ratio(a), int_ratio(b)) == Some(int_ratio(a - b)),
{
    lemma_int_wf(a - b);
    assert((a as i128) as int == a);
    assert((b as i128) as int == b);
    lemma_times_one(int_ratio(a).num as int, int_ratio(b).den as int);
    lemma_times_one(int_ratio(b).num as int, int_ratio(a).den as int);
    lemma_times_one(int_ratio(a).den as int, int_ratio(b).den as int);
}

/// The fraction `d / d` is one.
pub proof fn lemma_lowest_whole(d: int)
    requires
        d > 0,
    ensures
        lowest(d, d) == one(),
{
    lemma_mod_self_0(d);
    assert(gcd(d as nat, d as nat) == gcd(d as nat, 0));
    lemma_div_by_self(d);
    assert(lowest_num(d, d) == 1);
    assert(lowest_den(d, d) == 1);
}

fn checked_mul(x: i128, y: i128) -> (r: Option<i128>)
    ensures
        r == (if fits(x * y) { Some((x * y) as i128) } else { None::<i128> }),
{
    match x.checked_mul(y) {
        Some(p) => if p == i128::MIN {
            None
        } else {
            Some(p)
        },
        None => None,
    }
}

fn checked_add(x: i128, y: i128) -> (r: Option<i128>)
    ensures
        r == (if fits(x + y) { Some((x + y) as i128) } else { None::<i128> }),
{
    match x.checked_add(y) {
        Some(p) => if p == i128::MIN {
            None
        } else {
            Some(p)
        },
        None => None,
    }
}

fn checked_sub(x: i128, y: i128) -> (r: Option<i128>)
    ensures
        r == (if fits(x - y) { Some((x - y) as i128) } else { None::<i128> }),
{
    match x.checked_sub(y) {
        Some(p) => if p == i128::MIN {
            None
        } else {
            Some(p)
        },
        None => None,
    }
}

fn euclid(a: u128, b: u128) -> (g: u128)
    ensures
        g == gcd(a as nat, b as nat),
{
    let mut x: u128 = a;
    let mut y: u128 = b;
    while y != 0
        invariant
            gcd(x as nat, y as nat) == gcd(a as nat, b as nat),
        decreases y,
    {
        proof {
            lemma_mod_shrinks(x as nat, y as nat);
        }
        let r: u128 = x % y;
        x = y;
        y = r;
    }
    x
}

/// Brings `n / d` to lowest terms.
fn reduce(n: i128, d: i128) -> (r: Ratio)
    requires
        fits(n as int),
        d > 0,
    ensures
        r == lowest(n as int, d as int),
        r.wf(),
{
    proof {
        lemma_lowest_wf(n as int, d as int);
        lemma_gcd_pos(abs(n as int), d as nat);
        lemma_gcd_le(abs(n as int), d as nat);
        lemma_div_is_ordered_by_denominator(abs(n as int) as int, 1, gcd(abs(n as int), d as nat) as int);
    }
    let m: u128 = if n < 0 {
        (-n) as u128
    } else {
        n as u128
    };
    let g: u128 = euclid(m, d as u128);
    let q: u128 = m / g;
    let num: i128 = if n < 0 {
        -(q as i128)
    } else {
        q as i128
    };
    let den: i128 = ((d as u128) / g) as i128;
    Ratio { num, den }
}

fn reduce_checked(n: Option<i128>, d: Option<i128>) -> (r: Option<Ratio>)
    ensures
        r == (match (n, d) {
            (Some(x), Some(y)) => lowest_opt(x as int, y as int),
            _ => None,
        }),
        r matches Some(q) ==> q.wf(),
{
    match (n, d) {
        (Some(x), Some(y)) => {
            if x == i128::MIN || y <= 0 {
                None
            } else {
                Some(reduce(x, y))
            }
        },
        _ => None,
    }
}

impl Ratio {
    /// The fraction `num / den` in lowest terms; `None` where `den` is zero or
    /// either part is `i128::MIN`.
    pub fn new(num: i128, den: i128) -> (r: Option<Ratio>)
        ensures
            r == (if den == 0 || !fits(num as int) || !fits(den as int) {
                None::<Ratio>
            } else if den < 0 {
                Some(lowest(-num, -den))
            } else {
                Some(lowest(num as int, den as int))
            }),
            r matches Some(q) ==> q.wf(),
    {
        if den == 0 || num == i128::MIN || den == i128::MIN {
            None
        } else if den < 0 {
            Some(reduce(-num, -den))
        } else {
            Some(reduce(num, den))
        }
    }

    /// The integer `n` as a fraction.
    pub fn integer(n: i128) -> (r: Ratio)
        requires
            fits(n as int),
        ensures
            r == int_ratio(n as int),
            r.wf(),
    {
        proof {
            lemma_int_wf(n as int);
        }
        Ratio { num: n as i128, den: 1 }
    }

    /// Whether the value lies in `[0, 1]`.
    pub fn is_in_unit(&self) -> (r: bool)
        requires
            self.wf(),
        ensures
            r == self.in_unit(),
    {
        0 <= self.num && self.num <= self.den
    }

    /// `self + o`, or `None` where it leaves the range.
    pub fn add(&self, o: &Ratio) -> (r: Option<Ratio>)
        requires
            self.wf(),
            o.wf(),
        ensures
            r == sum(*self, *o),
            r matches Some(q) ==> q.wf(),
    {
        let (sd, od): (i128, i128) = cofactors(self.den, o.den);
        match (checked_mul(self.num, od), checked_mul(o.num, sd), checked_mul(sd, o.den)) {
            (Some(x), Some(y), Some(z)) => reduce_checked(checked_add(x, y), Some(z)),
            _ => None,
        }
    }

    /// `self - o`, or `None` where it leaves the range.
    pub fn sub(&self, o: &Ratio) -> (r: Option<Ratio>)
        requires
            self.wf(),
            o.wf(),
        ensures
            r == difference(*self, *o),
            r matches Some(q) ==> q.wf(),
    {
        let (sd, od): (i128, i128) = cofactors(self.den, o.den);
        match (checked_mul(self.num, od), checked_mul(o.num, sd), checked_mul(sd, o.den)) {
            (Some(x), Some(y), Some(z)) => reduce_checked(checked_sub(x, y), Some(z)),
            _ => None,
        }
    }

    /// `self * o`, or `None` where it leaves the range.
    pub fn mul(&self, o: &Ratio) -> (r: Option<Ratio>)
        requires
            self.wf(),
            o.wf(),
        ensures
            r == product(*self, *o),
            r matches Some(q) ==> q.wf(),
    {
        let (sn, od): (i128, i128) = cancel(self.num, o.den);
        let (on, sd): (i128, i128) = cancel(o.num, self.den);
        reduce_checked(checked_mul(sn, on), checked_mul(sd, od))
    }

    /// `self / o`, or `None` where `o` is zero or the quotient leaves the
    /// range.
    pub fn div(&self, o: &Ratio) -> (r: Option<Ratio>)
        requires
            self.wf(),
            o.wf(),
        ensures
            r == quotient(*self, *o),
            r matches Some(q) ==> q.wf(),
    {
        if o.num == 0 {
            return None;
        }
        let m: i128 = if o.num < 0 {
            -o.num
        } else {
            o.num
        };
        let (sn, om): (i128, i128) = cancel(self.num, m);
        let (sd, od): (i128, i128) = cofactors(self.den, o.den);
        match checked_mul(sn, od) {
            Some(x) => {
                let n: i128 = if o.num < 0 {
                    -x
                } else {
                    x
                };
                reduce_checked(Some(n), checked_mul(sd, om))
            },
            None => None,
        }
    }
}

/// Both positive numbers divided by their greatest common divisor.
fn cofactors(a: i128, b: i128) -> (r: (i128, i128))
    requires
        a > 0,
        b > 0,
    ensures
        r.0 == (a as int) / (gcd(a as nat, b as nat) as int),
        r.1 == (b as int) / (gcd(a as nat, b as nat) as int),
        0 < r.0 <= a,
        0 < r.1 <= b,
{
    proof {
        lemma_gcd_pos(a as nat, b as nat);
        lemma_gcd_le(a as nat, b as nat);
        lemma_gcd_le_first(a as nat, b as nat);
        let g = gcd(a as nat, b as nat) as int;
        lemma_div_is_ordered_by_denominator(a as int, 1, g);
        lemma_div_is_ordered_by_denominator(b as int, 1, g);
        lemma_div_by_self(g);
        lemma_div_is_ordered(g, a as int, g);
        lemma_div_is_ordered(g, b as int, g);
    }
    let g: u128 = euclid(a as u128, b as u128);
    (((a as u128) / g) as i128, ((b as u128) / g) as i128)
}

/// `n` and the positive `d`, each divided by their greatest common divisor,
/// `n` rounded toward zero.
fn cancel(n: i128, d: i128) -> (r: (i128, i128))
    requires
        fits(n as int),
        d > 0,
    ensures
        r.0 == div_trunc(n as int, gcd(abs(n as int), d as nat) as int),
        r.1 == (d as int) / (gcd(abs(n as int), d as nat) as int),
        abs(r.0 as int) <= abs(n as int),
        0 < r.1 <= d,
{
    let m: u128 = if n < 0 {
        (-n) as u128
    } else {
        n as u128
    };
    proof {
        lemma_gcd_pos(m as nat, d as nat);
        lemma_gcd_le(m as nat, d as nat);
        let g = gcd(m as nat, d as nat) as int;
        lemma_div_is_ordered_by_denominator(m as int, 1, g);
        lemma_div_is_ordered_by_denominator(d as int, 1, g);
        lemma_div_by_self(g);
        lemma_div_is_ordered(g, d as int, g);
        lemma_div_pos_is_pos(m as int, g);
    }
    let g: u128 = euclid(m, d as u128);
    let q: i128 = (m / g) as i128;
    (if n < 0 {
        -q
    } else {
        q
    }, ((d as u128) / g) as i128)
}

pub(crate) fn add_opt(a: Option<Ratio>, b: Option<Ratio>) -> (r: Option<Ratio>)
    requires
        opt_wf(a),
        opt_wf(b),
    ensures
        r == opt_sum(a, b),
        opt_wf(r),
{
    match (a, b) {
        (Some(x), Some(y)) => x.add(&y),
        _ => None,
    }
}

pub(crate) fn sub_opt(a: Option<Ratio>, b: Option<Ratio>) -> (r: Option<Ratio>)
    requires
        opt_wf(a),
        opt_wf(b),
    ensures
        r == opt_difference(a, b),
        opt_wf(r),
{
    match (a, b) {
        (Some(x), Some(y)) => x.sub(&y),
        _ => None,
    }
}

pub(crate) fn mul_opt(a: Option<Ratio>, b: Option<Ratio>) -> (r: Option<Ratio>)
    requires
        opt_wf(a),
        opt_wf(b),
    ensures
        r == opt_product(a, b),
        opt_wf(r),
{
    match (a, b) {
        (Some(x), Some(y)) => x.mul(&y),
        _ => None,
    }
}

pub(crate) fn div_opt(a: Option<Ratio>, b: Option<Ratio>) -> (r: Option<Ratio>)
    requires
        opt_wf(a),
        opt_wf(b),
    ensures
        r == opt_quotient(a, b),
        opt_wf(r),
{
    match (a, b) {
        (Some(x), Some(y)) => {
            x.div(&y)
        },
        _ => None,
    }
}

} // verus!
