//! Numbers of 24 significant binary digits, which is as far as counts are told
//! apart.

use vstd::prelude::*;

verus! {

/// How far apart such numbers are where `n` lies.
pub open spec fn spacing(n: int) -> int
    decreases n,
{
    if n < 0x100_0000 {
        1
    } else {
        2 * spacing(n / 2)
    }
}

/// The nearest such number: of two that are equally near, the one whose last
/// digit is even.
pub open spec fn nearest_single(n: int) -> int {
    let unit = spacing(n);
    let (q, r) = (n / unit, n % unit);
    if 2 * r < unit || (2 * r == unit && q % 2 == 0) {
        q * unit
    } else {
        (q + 1) * unit
    }
}

proof fn lemma_spacing(n: int)
    requires
        0 <= n,
    ensures
        spacing(n) >= 1,
        n < 0x100_0000 ==> spacing(n) == 1,
        n >= 0x100_0000 ==> spacing(n) >= 2 && 0x80_0000 <= n / spacing(n) < 0x100_0000,
    decreases n,
{
    if n >= 0x100_0000 {
        lemma_spacing(n / 2);
        let half = spacing(n / 2);
        vstd::arithmetic::div_mod::lemma_div_denominator(n, 2, half);
        assert(n / spacing(n) == (n / 2) / half);
        if n / 2 < 0x100_0000 {
            assert((n / 2) / 1 == n / 2);
        }
    }
}

/// Numbers of 24 digits are told apart.
pub proof fn lemma_small_is_exact(n: int)
    requires
        0 <= n <= 0x100_0000,
    ensures
        nearest_single(n) == n,
{
    if n < 0x100_0000 {
        assert(n / 1 == n && n % 1 == 0);
    } else {
        assert(spacing(0x100_0000int / 2) == 1);
        assert(spacing(0x100_0000) == 2);
    }
}

/// Larger numbers stay large.
pub proof fn lemma_large_stays_large(n: int)
    requires
        0x100_0000 <= n,
    ensures
        nearest_single(n) >= 0x100_0000,
{
    lemma_spacing(n);
    let unit = spacing(n);
    let q = n / unit;
    assert(q * unit >= 0x80_0000 * 2 && (q + 1) * unit >= 0x80_0000 * 2) by (nonlinear_arith)
        requires
            q >= 0x80_0000,
            unit >= 2,
    ;
}

/// The nearest number of 24 significant binary digits.
pub fn round_to_single(n: u64) -> (r: u64)
    requires
        n <= 0x2_0000_0000,
    ensures
        r == nearest_single(n as int),
{
    let mut unit: u64 = 1;
    let mut q: u64 = n;
    assert(n as int / 1 == n);
    while q >= 0x100_0000
        invariant
            1 <= unit,
            q == n as int / unit as int,
            unit * q <= n <= 0x2_0000_0000,
            unit == 1 || q >= 0x80_0000,
            spacing(n as int) == unit * spacing(q as int),
        decreases q,
    {
        proof {
            vstd::arithmetic::div_mod::lemma_div_denominator(n as int, unit as int, 2);
            let half = q as int / 2;
            assert(unit * 2 == 2 * unit);
            assert((unit * 2) * half <= unit * q) by (nonlinear_arith)
                requires
                    2 * half <= q,
                    unit >= 1,
            ;
            assert(unit <= unit * q) by (nonlinear_arith)
                requires
                    q >= 1,
                    unit >= 1,
            ;
            assert(unit * spacing(q as int) == (unit * 2) * spacing(half)) by (nonlinear_arith)
                requires
                    spacing(q as int) == 2 * spacing(half),
            ;
        }
        unit = unit * 2;
        q = q / 2;
    }
    proof {
        assert(spacing(n as int) == unit);
        assert(n as int % unit as int == n - unit * q) by {
            vstd::arithmetic::div_mod::lemma_fundamental_div_mod(n as int, unit as int);
        }
        assert(unit <= 0x2_0000_0000) by (nonlinear_arith)
            requires
                unit >= 1,
                unit * q <= 0x2_0000_0000,
                unit == 1 || q >= 0x80_0000,
        ;
        assert(q * unit == unit * q) by (nonlinear_arith);
        assert((q + 1) * unit == unit * q + unit) by (nonlinear_arith);
    }
    let r: u64 = n - unit * q;
    if 2 * r < unit || (2 * r == unit && q % 2 == 0) {
        q * unit
    } else {
        (q + 1) * unit
    }
}

/// A number is rounded to a multiple of the unit of its size that is no further away than
/// any other, and of two equally near ones to the even one. The unit leaves 24 digits.
pub proof fn lemma_nearest_single(n: int, other: int)
    requires
        0 <= n,
    ensures
        ({
            let unit = spacing(n);
            let near = nearest_single(n);
            &&& unit >= 1
            &&& n < 0x100_0000 ==> unit == 1
            &&& n >= 0x100_0000 ==> 0x80_0000 <= n / unit < 0x100_0000
            &&& near % unit == 0
            &&& near - n <= other * unit - n || near - n <= n - other * unit
            &&& n - near <= other * unit - n || n - near <= n - other * unit
            &&& other * unit != near && (other * unit - n == n - near) ==> (near / unit) % 2 == 0
        }),
{
    lemma_spacing(n);
    let unit = spacing(n);
    let (q, r) = (n / unit, n % unit);
    vstd::arithmetic::div_mod::lemma_fundamental_div_mod(n, unit);
    vstd::arithmetic::div_mod::lemma_mod_bound(n, unit);
    let m = if 2 * r < unit || (2 * r == unit && q % 2 == 0) {
        q
    } else {
        q + 1
    };
    assert(nearest_single(n) == m * unit);
    assert(n == q * unit + r) by (nonlinear_arith)
        requires
            n == unit * q + r,
    ;
    assert((q + 1) * unit == q * unit + unit) by (nonlinear_arith);
    vstd::arithmetic::div_mod::lemma_mod_multiples_basic(m, unit);
    vstd::arithmetic::div_mod::lemma_div_by_multiple(m, unit);
    if other <= q {
        assert(other * unit <= q * unit) by (nonlinear_arith)
            requires
                other <= q,
                unit >= 1,
        ;
        if other < q {
            assert(other * unit <= q * unit - unit) by (nonlinear_arith)
                requires
                    other <= q - 1,
                    unit >= 1,
            ;
        }
    } else {
        assert(other * unit >= q * unit + unit) by (nonlinear_arith)
            requires
                other >= q + 1,
                unit >= 1,
        ;
        if other > q + 1 {
            assert(other * unit >= q * unit + 2 * unit) by (nonlinear_arith)
                requires
                    other >= q + 2,
                    unit >= 1,
            ;
        }
    }
}

/// The unit doubles when the number does.
pub proof fn lemma_spacing_doubles(n: int)
    requires
        0x80_0000 <= n,
    ensures
        spacing(2 * n) == 2 * spacing(n),
{
    assert((2 * n) / 2 == n);
}

} // verus!
