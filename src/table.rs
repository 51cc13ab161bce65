//! Parameter tables: evenly spaced samples of `[0, 1]`, built once per
//! resolution and shared by many curve evaluations.

use vstd::prelude::*;
use crate::ratio::{Ratio, fits, gcd, less, lowest, lowest_den, lowest_num, one, product, zero, lemma_lowest_unit, lemma_lowest_value, lemma_lowest_wf, lemma_lowest_whole, lowest_opt};

verus! {

/// One sample `t` of a curve segment, with its square and cube.
#[derive(Clone, Copy, Debug, PartialEq, Eq)]
pub struct Slice {
    pub t: Ratio,
    pub t_squared: Ratio,
    pub t_cubed: Ratio,
}

impl Slice {
    pub open spec fn wf(self) -> bool {
        &&& self.t.wf()
        &&& self.t.in_unit()
        &&& product(self.t, self.t) == Some(self.t_squared)
        &&& product(self.t_squared, self.t) == Some(self.t_cubed)
    }
}

/// The square and the cube held by a well-formed slice are well-formed.
pub proof fn lemma_slice_wf(s: Slice)
    requires
        s.wf(),
    ensures
        s.t_squared.wf(),
        s.t_cubed.wf(),
{
    crate::ratio::lemma_results_wf(s.t, s.t);
    crate::ratio::lemma_results_wf(s.t_squared, s.t);
}

/// Consecutive fractions `i / n` and `(i + 1) / n` increase.
pub proof fn lemma_steps_increase(i: int, n: int)
    requires
        0 <= i < n,
        fits(n),
    ensures
        less(lowest(i, n), lowest(i + 1, n)),
{
    lemma_lowest_value(i, n);
    lemma_lowest_value(i + 1, n);
    let a = lowest(i, n);
    let b = lowest(i + 1, n);
    let an = a.num as int;
    let ad = a.den as int;
    let bn = b.num as int;
    let bd = b.den as int;
    assert(an * bd < bn * ad) by (nonlinear_arith)
        requires
            an * n == i * ad,
            bn * n == (i + 1) * bd,
            n > 0,
            ad > 0,
            bd > 0,
    ;
}

proof fn lemma_lowest_zero(n: int)
    requires
        n > 0,
    ensures
        lowest(0, n) == zero(),
{
    vstd::arithmetic::div_mod::lemma_small_mod(0, n as nat);
    assert(gcd(0, n as nat) == gcd(n as nat, 0));
    vstd::arithmetic::div_mod::lemma_div_by_self(n);
    vstd::arithmetic::div_mod::lemma_div_of0(n);
    assert(lowest_num(0, n) == 0);
    assert(lowest_den(0, n) == 1);
}

/// The `n + 1` parameters `0, 1/n, ..., 1`.
pub fn init_ts(n: usize) -> (ts: Vec<Ratio>)
    requires
        0 < n < usize::MAX,
    ensures
        ts.len() == n + 1,
        forall|i: int| 0 <= i <= n ==> ts@[i] == lowest(i, n as int),
        forall|i: int| 0 <= i <= n ==> (#[trigger] ts@[i]).wf() && ts@[i].in_unit(),
        ts@[0] == zero(),
        ts@[n as int] == one(),
        forall|i: int| 0 <= i < n ==> less(#[trigger] ts@[i], ts@[i + 1]),
{
    let mut ts: Vec<Ratio> = Vec::with_capacity(n + 1);
    let mut i: usize = 0;
    while i <= n
        invariant
            0 < n < usize::MAX,
            i <= n + 1,
            ts.len() == i,
            forall|k: int| 0 <= k < i ==> ts@[k] == lowest(k, n as int),
        decreases n + 1 - i,
    {
        proof {
            lemma_lowest_wf(i as int, n as int);
        }
        let t: Ratio = Ratio::new(i as i128, n as i128).unwrap();
        ts.push(t);
        i = i + 1;
    }
    proof {
        lemma_lowest_zero(n as int);
        lemma_lowest_whole(n as int);
        assert forall|k: int| 0 <= k <= n implies (#[trigger] ts@[k]).wf() && ts@[k].in_unit() by {
            lemma_lowest_unit(k, n as int);
        }
        assert forall|k: int| 0 <= k < n implies less(#[trigger] ts@[k], ts@[k + 1]) by {
            lemma_steps_increase(k, n as int);
        }
    }
    ts
}

/// The square and the cube of `i / n` fit where `n` cubed does.
proof fn lemma_slice_fits(i: int, n: int)
    requires
        0 <= i < n,
        n * n * n <= i128::MAX,
    ensures
        product(lowest(i, n), lowest(i, n)) is Some,
        product(product(lowest(i, n), lowest(i, n))->Some_0, lowest(i, n)) is Some,
{
    assert(n <= n * n <= n * n * n) by (nonlinear_arith)
        requires
            n > 0,
    ;
    lemma_lowest_unit(i, n);
    let t = lowest(i, n);
    let a = t.num as int;
    let b = t.den as int;
    crate::ratio::lemma_div_trunc_one(a);
    vstd::arithmetic::div_mod::lemma_div_basics_2(b);
    assert(product(t, t) == lowest_opt(a * a, b * b));
    assert(0 <= a * a <= b * b <= n * n && b * b > 0) by (nonlinear_arith)
        requires
            0 <= a <= b <= n,
            b > 0,
    ;
    lemma_lowest_wf(a * a, b * b);
    lemma_lowest_value(a * a, b * b);
    let s = lowest(a * a, b * b);
    assert(0 <= s.num);
    assert(s.num <= s.den) by (nonlinear_arith)
        requires
            s.num * (b * b) == (a * a) * s.den,
            a * a <= b * b,
            b * b > 0,
            s.den > 0,
    ;
    let c = s.num as int;
    let e = s.den as int;
    assert(0 <= c * a <= e * b <= n * n * n && e * b > 0) by (nonlinear_arith)
        requires
            0 <= c <= e <= n * n,
            0 <= a <= b <= n,
            e > 0,
            b > 0,
    ;
    lemma_lowest_wf(a * a, b * b);
    crate::ratio::lemma_product_fits(s, t);
}

/// The `n` samples `0, 1/n, ..., (n - 1)/n` of a segment, each with its
/// square and cube.
pub fn make_slices(n: usize) -> (slices: Vec<Slice>)
    requires
        n * n * n <= i128::MAX,
    ensures
        slices.len() == n,
        forall|i: int| 0 <= i < n ==> (#[trigger] slices@[i]).t == lowest(i, n as int),
        forall|i: int| 0 <= i < n ==> (#[trigger] slices@[i]).wf(),
        forall|i: int| 0 <= i < n - 1 ==> less(#[trigger] slices@[i].t, slices@[i + 1].t),
{
    let mut slices: Vec<Slice> = Vec::with_capacity(n);
    let mut i: usize = 0;
    while i < n
        invariant
            n * n * n <= i128::MAX,
            i <= n,
            slices.len() == i,
            forall|k: int| 0 <= k < i ==> (#[trigger] slices@[k]).t == lowest(k, n as int),
            forall|k: int| 0 <= k < i ==> (#[trigger] slices@[k]).wf(),
        decreases n - i,
    {
        proof {
            lemma_slice_fits(i as int, n as int);
            lemma_lowest_unit(i as int, n as int);
        }
        let t: Ratio = Ratio::new(i as i128, n as i128).unwrap();
        let t_squared: Ratio = t.mul(&t).unwrap();
        let t_cubed: Ratio = t_squared.mul(&t).unwrap();
        slices.push(Slice { t, t_squared, t_cubed });
        i = i + 1;
    }
    proof {
        assert forall|k: int| 0 <= k < n - 1 implies less(#[trigger] slices@[k].t, slices@[k + 1].t) by {
            lemma_steps_increase(k, n as int);
        }
    }
    slices
}

} // verus!
