//! Shares of a count, at single precision.
//!
//! Every share the engine takes of a count - the part of a context window that
//! trips compaction, the part of a card the cache may fill - is a
//! single-precision product: the count and the product are each rounded to 24
//! significant bits, ties to even, and the result is cut or rounded to an
//! integer. The arithmetic here is that arithmetic, carried out in integers.
use vstd::arithmetic::div_mod::*;
use vstd::arithmetic::mul::*;
use vstd::prelude::*;

verus! {

/// The first integer that needs more than 24 significant bits.
pub const PRECISION: u128 = 16777216;

/// The largest integer the rounding is carried out on.
pub const WIDEST: u128 = 0x1_0000_0000_0000_0000_0000_0000_0000;

/// The distance between neighbouring 24-bit significands at the size of `n`.
pub open spec fn ulp(n: nat) -> nat
    decreases n,
{
    if n < PRECISION {
        1
    } else {
        2 * ulp(n / 2)
    }
}

/// `n` rounded to 24 significant bits, a tie going to the even significand.
pub open spec fn nearest(n: nat) -> nat {
    let u = ulp(n);
    let q = n / u;
    let r = n % u;
    if 2 * r > u || (2 * r == u && q % 2 == 1) {
        (q + 1) * u
    } else {
        q * u
    }
}

/// The single-precision product of `n` and `significand`.
pub open spec fn product(n: nat, significand: nat) -> nat {
    nearest(nearest(n) * significand)
}

/// The smaller of a value and the largest `usize`.
pub open spec fn clipped(n: nat) -> nat {
    if n > usize::MAX {
        usize::MAX as nat
    } else {
        n
    }
}

/// The share `significand / unit` of `n`, cut to an integer.
pub open spec fn share(n: nat, significand: nat, unit: nat) -> nat {
    clipped(product(n, significand) / unit)
}

/// The share `significand / unit` of `n`, rounded to an integer, half up.
pub open spec fn rounded_share(n: nat, significand: nat, unit: nat) -> nat {
    clipped((product(n, significand) + unit / 2) / unit)
}

proof fn lemma_ulp_positive(n: nat)
    ensures
        ulp(n) >= 1,
        n >= PRECISION ==> ulp(n) <= n,
    decreases n,
{
    if n >= PRECISION {
        lemma_ulp_positive(n / 2);
    }
}

/// A count below 2^24 is exact.
pub proof fn law_small_counts_are_exact(n: nat)
    requires
        n < PRECISION,
    ensures
        nearest(n) == n,
{
    assert(ulp(n) == 1);
    assert(n / 1 == n && n % 1 == 0);
}

/// Rounding moves a value by at most half the distance between significands.
pub proof fn law_nearest_is_close(n: nat)
    ensures
        2 * (nearest(n) - n) <= ulp(n),
        2 * (n - nearest(n)) <= ulp(n),
        nearest(n) % ulp(n) == 0,
{
    lemma_ulp_positive(n);
    let u = ulp(n) as int;
    let q = n as int / u;
    lemma_fundamental_div_mod(n as int, u);
    lemma_mul_is_commutative(u, q);
    lemma_mul_is_distributive_add_other_way(u, q, 1);
    lemma_mod_multiples_basic(q, u);
    lemma_mod_multiples_basic(q + 1, u);
}

proof fn lemma_nearest_bound(n: nat)
    ensures
        nearest(n) <= 2 * n,
{
    if n < PRECISION {
        law_small_counts_are_exact(n);
    } else {
        lemma_ulp_positive(n);
        law_nearest_is_close(n);
    }
}

/// Rounds to 24 significant bits, ties to even.
pub fn round_to_nearest(n: u128) -> (r: u128)
    requires
        n <= WIDEST,
    ensures
        r == nearest(n as nat),
        r <= 2 * n,
{
    let mut unit: u128 = 1;
    let mut q: u128 = n;
    assert(n / 1 == n);
    while q >= PRECISION
        invariant
            n <= WIDEST,
            unit >= 1,
            unit == 1 || unit <= n,
            q == n / unit,
            unit * q <= n,
            ulp(n as nat) == unit * ulp(q as nat),
        decreases q,
    {
        proof {
            let half = (q / 2) as nat;
            lemma_div_denominator(n as int, unit as int, 2);
            assert(unit * 2 * half <= unit * q) by (nonlinear_arith)
                requires
                    half == q / 2,
            ;
            assert(unit * 2 <= n) by (nonlinear_arith)
                requires
                    unit * q <= n,
                    q >= 2,
            ;
            assert(unit * (2 * ulp(half)) == (unit * 2) * ulp(half)) by (nonlinear_arith);
        }
        q = q / 2;
        unit = unit * 2;
    }
    proof {
        lemma_fundamental_div_mod(n as int, unit as int);
        lemma_mul_is_commutative(unit as int, q as int);
        lemma_mul_is_distributive_add_other_way(unit as int, q as int, 1);
        lemma_nearest_bound(n as nat);
        lemma_mod_bound(n as int, unit as int);
        assert(ulp(q as nat) == 1);
        assert(ulp(n as nat) == unit) by (nonlinear_arith)
            requires
                ulp(n as nat) == unit * ulp(q as nat),
                ulp(q as nat) == 1,
        ;
    }
    let rest: u128 = n % unit;
    if 2 * rest > unit || (2 * rest == unit && q % 2 == 1) {
        q * unit + unit
    } else {
        q * unit
    }
}

/// The single-precision product of a 64-bit count and a 24-bit significand.
pub fn single_product(n: u64, significand: u128) -> (r: u128)
    requires
        significand < PRECISION,
    ensures
        r == product(n as nat, significand as nat),
        r < 0x4_0000_0000_0000_0000_0000_0000,
{
    let near: u128 = round_to_nearest(n as u128);
    assert(near * significand <= 0x1_ffff_ffff_ffff_ffff * 0xff_ffff) by (nonlinear_arith)
        requires
            near <= 0x1_ffff_ffff_ffff_ffff,
            significand <= 0xff_ffff,
    ;
    round_to_nearest(near * significand)
}

/// Cuts a value to the range of `usize`.
pub fn clip(n: u128) -> (r: usize)
    ensures
        r == clipped(n as nat),
{
    if n > usize::MAX as u128 {
        usize::MAX
    } else {
        n as usize
    }
}

/// The share `significand / unit` of a count, cut to an integer.
pub fn share_of(n: usize, significand: u128, unit: u128) -> (r: usize)
    requires
        significand < PRECISION,
        unit > 0,
    ensures
        r == share(n as nat, significand as nat, unit as nat),
{
    clip(single_product(n as u64, significand) / unit)
}

/// The share `significand / unit` of a count, rounded half up to an integer.
pub fn rounded_share_of(n: usize, significand: u128, unit: u128) -> (r: usize)
    requires
        significand < PRECISION,
        0 < unit <= PRECISION * PRECISION,
    ensures
        r == rounded_share(n as nat, significand as nat, unit as nat),
{
    clip((single_product(n as u64, significand) + unit / 2) / unit)
}

// ---------------------------------------------------------------- order

proof fn lemma_ulp_range(n: nat)
    requires
        n >= PRECISION,
    ensures
        ulp(n) * (PRECISION / 2) <= n,
        n < ulp(n) * PRECISION,
    decreases n,
{
    let h = n / 2;
    if h >= PRECISION {
        lemma_ulp_range(h);
    } else {
        assert(ulp(h) == 1);
    }
    let u = ulp(h);
    assert(ulp(n) == 2 * u);
    assert((2 * u) * (PRECISION / 2) == 2 * (u * (PRECISION / 2))) by (nonlinear_arith);
    assert((2 * u) * PRECISION == 2 * (u * PRECISION)) by (nonlinear_arith);
}

proof fn lemma_ulp_order(a: nat, b: nat)
    requires
        a <= b,
    ensures
        ulp(a) == ulp(b) || 2 * ulp(a) <= ulp(b),
    decreases b,
{
    if b >= PRECISION {
        lemma_ulp_positive(b / 2);
        if a >= PRECISION {
            lemma_ulp_order(a / 2, b / 2);
        }
    }
}

/// Rounding keeps the order of two values.
pub proof fn law_nearest_keeps_order(a: nat, b: nat)
    requires
        a <= b,
    ensures
        nearest(a) <= nearest(b),
{
    lemma_ulp_positive(a);
    lemma_ulp_positive(b);
    lemma_ulp_order(a, b);
    let (u, v) = (ulp(a) as int, ulp(b) as int);
    let (q, p) = (a as int / u, b as int / v);
    lemma_fundamental_div_mod(a as int, u);
    lemma_fundamental_div_mod(b as int, v);
    lemma_mod_bound(a as int, u);
    lemma_mod_bound(b as int, v);
    if u == v {
        lemma_div_is_ordered(a as int, b as int, u);
        if q < p {
            assert((q + 1) * u <= p * u) by (nonlinear_arith)
                requires
                    q + 1 <= p,
                    u >= 1,
            ;
            assert(q * u <= (q + 1) * u && p * u <= (p + 1) * u) by (nonlinear_arith)
                requires
                    u >= 1,
            ;
        } else {
            assert(q * u <= (q + 1) * u) by (nonlinear_arith)
                requires
                    u >= 1,
            ;
        }
    } else {
        let half = PRECISION as int / 2;
        assert(b >= PRECISION) by {
            if b < PRECISION {
                assert(ulp(b) == 1 && ulp(a) == 1);
            }
        }
        lemma_ulp_range(b);
        if a >= PRECISION {
            lemma_ulp_range(a);
        } else {
            assert(ulp(a) == 1);
        }
        assert(q + 1 <= 2 * half) by (nonlinear_arith)
            requires
                a as int == u * q + a as int % u,
                0 <= a as int % u,
                (a as int) < u * (2 * half),
                u >= 1,
        ;
        assert(p >= half) by (nonlinear_arith)
            requires
                b as int == v * p + b as int % v,
                b as int % v < v,
                v * half <= b,
                v >= 1,
        ;
        assert((q + 1) * u <= (2 * half) * u && q * u <= (q + 1) * u) by (nonlinear_arith)
            requires
                q + 1 <= 2 * half,
                u >= 1,
        ;
        assert(half * v <= p * v && p * v <= (p + 1) * v) by (nonlinear_arith)
            requires
                half <= p,
                v >= 1,
        ;
        assert((2 * half) * u <= half * v) by (nonlinear_arith)
            requires
                2 * u <= v,
                half >= 0,
        ;
    }
}

/// A share of a larger count is not smaller.
pub proof fn law_shares_grow_with_the_count(a: nat, b: nat, significand: nat)
    requires
        a <= b,
    ensures
        product(a, significand) <= product(b, significand),
{
    law_nearest_keeps_order(a, b);
    assert(nearest(a) * significand <= nearest(b) * significand) by (nonlinear_arith)
        requires
            nearest(a) <= nearest(b),
    ;
    law_nearest_keeps_order(nearest(a) * significand, nearest(b) * significand);
}

// ---------------------------------------------------------------- precision

/// Rounding moves a value by less than one part in sixteen million.
pub proof fn law_nearest_keeps_its_size(n: nat)
    ensures
        16777216 * nearest(n) <= 16777217 * n,
        16777215 * n <= 16777216 * nearest(n),
{
    if n < PRECISION {
        law_small_counts_are_exact(n);
    } else {
        law_nearest_is_close(n);
        lemma_ulp_range(n);
        let u = ulp(n);
        assert(u * (PRECISION / 2) == 8388608 * u) by (nonlinear_arith)
            requires
                PRECISION == 16777216u128,
        ;
    }
}

/// A share of a count is the count by the fraction, to one part in two million,
/// cut to an integer.
pub proof fn law_a_share_is_its_fraction(n: nat, significand: nat, unit: nat)
    requires
        0 < unit,
        significand <= unit,
        n <= usize::MAX,
    ensures
        2_000_000 * (unit * share(n, significand, unit)) <= 2_000_001 * (n * significand),
        1_999_999 * (n * significand) <= 2_000_000 * (unit * (share(n, significand, unit) + 1)),
{
    let a = nearest(n);
    let exact = n * significand;
    let once = a * significand;
    let p = nearest(once);
    law_nearest_keeps_its_size(n);
    law_nearest_keeps_its_size(once);
    assert(16777216 * once <= 16777217 * exact) by (nonlinear_arith)
        requires
            16777216 * a <= 16777217 * n,
            once == a * significand,
            exact == n * significand,
    ;
    assert(16777215 * exact <= 16777216 * once) by (nonlinear_arith)
        requires
            16777215 * n <= 16777216 * a,
            once == a * significand,
            exact == n * significand,
    ;
    assert(p == product(n, significand));
    assert(2_000_000 * p <= 2_000_001 * exact);
    assert(1_999_999 * exact <= 2_000_000 * p);
    let q = p / unit;
    lemma_fundamental_div_mod(p as int, unit as int);
    lemma_mod_bound(p as int, unit as int);
    assert(unit * (q + 1) == unit * q + unit) by (nonlinear_arith);
    assert(unit * q <= p < unit * (q + 1));
    let r = share(n, significand, unit);
    if q > usize::MAX {
        let most = usize::MAX as nat;
        assert(r == most);
        assert(unit * most <= unit * q) by (nonlinear_arith)
            requires
                most <= q,
        ;
        assert(exact <= unit * (most + 1)) by (nonlinear_arith)
            requires
                exact == n * significand,
                n <= most,
                significand <= unit,
        ;
    } else {
        assert(r == q);
    }
}

/// The `n`th power of two.
pub open spec fn two_to(n: nat) -> nat
    decreases n,
{
    if n == 0 {
        1
    } else {
        2 * two_to((n - 1) as nat)
    }
}

/// A count of 24 bits stays exact when it is multiplied by a power of two.
pub proof fn lemma_power_of_two_keeps(n: nat, k: nat)
    requires
        n < PRECISION,
    ensures
        nearest(n * two_to(k)) == n * two_to(k),
{
    lemma_ulp_divides(n, k);
    let v = n * two_to(k);
    lemma_ulp_positive(v);
    lemma_fundamental_div_mod(v as int, ulp(v) as int);
    assert(v % ulp(v) == 0);
    assert(ulp(v) * (v / ulp(v)) == (v / ulp(v)) * ulp(v)) by (nonlinear_arith);
}

proof fn lemma_ulp_divides(n: nat, k: nat)
    requires
        n < PRECISION,
    ensures
        (n * two_to(k)) % ulp(n * two_to(k)) == 0,
    decreases k,
{
    let v = n * two_to(k);
    if k == 0 {
        assert(v == n) by (nonlinear_arith)
            requires
                v == n * two_to(k),
                two_to(k) == 1,
        ;
        assert(v % 1 == 0);
    } else {
        let w = n * two_to((k - 1) as nat);
        lemma_ulp_divides(n, (k - 1) as nat);
        assert(v == 2 * w) by (nonlinear_arith)
            requires
                v == n * two_to(k),
                w == n * two_to((k - 1) as nat),
                two_to(k) == 2 * two_to((k - 1) as nat),
        ;
        if v < PRECISION {
            assert(v % 1 == 0);
        } else {
            assert(v / 2 == w);
            let u = ulp(w);
            lemma_ulp_positive(w);
            assert(ulp(v) == 2 * u);
            lemma_truncate_middle(w as int, 2, u as int);
            assert((2 * w) % (2 * u) == 0);
        }
    }
}

/// A single-precision product is the exact one, to one part in two million.
pub proof fn law_a_product_keeps_its_size(n: nat, significand: nat)
    ensures
        2_000_000 * product(n, significand) <= 2_000_001 * (n * significand),
        1_999_999 * (n * significand) <= 2_000_000 * product(n, significand),
{
    let a = nearest(n);
    let exact = n * significand;
    let once = a * significand;
    law_nearest_keeps_its_size(n);
    law_nearest_keeps_its_size(once);
    assert(16777216 * once <= 16777217 * exact) by (nonlinear_arith)
        requires
            16777216 * a <= 16777217 * n,
            once == a * significand,
            exact == n * significand,
    ;
    assert(16777215 * exact <= 16777216 * once) by (nonlinear_arith)
        requires
            16777215 * n <= 16777216 * a,
            once == a * significand,
            exact == n * significand,
    ;
}

} // verus!
