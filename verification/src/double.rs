//! Binary64 floating point numbers as integers: their exact value, order,
//! rounding and fixed point text.
//!
//! A number is held as its bit pattern. Its size is counted in units of the
//! smallest number above zero, so every finite number is a whole number of units.

use crate::text;
use vstd::arithmetic::power2;
use vstd::prelude::*;

verus! {

/// 2^52, the step between two exponents.
pub const BINADE: u64 = 0x10_0000_0000_0000;

/// The size bits of infinity. Larger size bits are no number.
pub const INFINITE: u64 = 0x7ff0_0000_0000_0000;

/// The sign bit.
pub const SIGN: u64 = 0x8000_0000_0000_0000;

/// How many doublings lead from the unit to one.
pub const ONE_SHIFT: u64 = 1074;

/// A binary64 number, held as its bit pattern.
#[derive(Clone, Copy, Debug, PartialEq, Eq, Structural)]
pub struct Double {
    pub bits: u64,
}

/// The size, in units, that the size bits `size` stand for.
pub open spec fn units(size: nat) -> nat {
    if size < BINADE {
        size
    } else {
        ((BINADE + size % BINADE as nat) as nat) * power2::pow2((size / BINADE as nat - 1) as nat)
    }
}

/// `n / d`, rounded to the nearest whole number, to the even one in the middle.
pub open spec fn round_even(n: nat, d: nat) -> nat {
    let q = n / d;
    let r = n % d;
    if 2 * r < d || (2 * r == d && q % 2 == 0) {
        q
    } else {
        q + 1
    }
}

/// The size bits `size` stand for the number nearest to `n / d` units: it lies
/// between the midpoints to both neighbours, on one of them only where `size` is
/// even.
pub open spec fn is_nearest(size: nat, n: nat, d: nat) -> bool {
    &&& size <= INFINITE
    &&& size > 0 ==> {
        let middle = d * (units((size - 1) as nat) + units(size));
        if size % 2 == 0 {
            2 * n >= middle
        } else {
            2 * n > middle
        }
    }
    &&& size < INFINITE ==> {
        let middle = d * (units(size) + units(size + 1));
        if size % 2 == 0 {
            2 * n <= middle
        } else {
            2 * n < middle
        }
    }
}

/// The size bits of the number nearest to `n / d` units, the one with even size
/// bits in the middle.
pub open spec fn nearest(n: nat, d: nat) -> u64 {
    choose|size: u64| is_nearest(size as nat, n, d)
}

impl Double {
    /// The bits below the sign.
    pub open spec fn size(self) -> u64 {
        (self.bits % SIGN) as u64
    }

    pub open spec fn negative(self) -> bool {
        self.bits >= SIGN
    }

    pub open spec fn is_nan(self) -> bool {
        self.size() > INFINITE
    }

    /// The value in units, with its sign. Infinity counts as the number that
    /// would follow the largest finite one.
    pub open spec fn value(self) -> int {
        if self.negative() {
            -(units(self.size() as nat) as int)
        } else {
            units(self.size() as nat) as int
        }
    }

    /// The same number with other size bits.
    pub open spec fn resized(self, size: u64) -> Double {
        Double { bits: if self.negative() { (size + SIGN) as u64 } else { size } }
    }

    /// The place in the total order of all bit patterns: negative ones by falling
    /// size, then positive ones by rising size.
    pub open spec fn rank(self) -> int {
        if self.negative() {
            -(self.size() as int) - 1
        } else {
            self.size() as int
        }
    }
}

/// The number nearest to the whole number `n`.
pub open spec fn whole(n: nat) -> Double {
    Double { bits: nearest(n * power2::pow2(ONE_SHIFT as nat), 1) }
}

/// `x / d` for a whole number `d` above zero, rounded to the nearest number.
pub open spec fn divided(x: Double, d: nat) -> Double {
    if x.size() >= INFINITE {
        x
    } else {
        x.resized(nearest(units(x.size() as nat), d))
    }
}

/// `x * d` for a whole number `d` above zero, rounded to the nearest number.
pub open spec fn multiplied(x: Double, d: nat) -> Double {
    if x.size() >= INFINITE {
        x
    } else {
        x.resized(nearest(units(x.size() as nat) * d, 1))
    }
}

/// `x` is a number and not below `y`, a number too.
pub open spec fn at_least(x: Double, y: Double) -> bool {
    !x.is_nan() && !y.is_nan() && x.value() >= y.value()
}

/// `x` is a number above zero.
pub open spec fn above_zero(x: Double) -> bool {
    !x.is_nan() && x.value() > 0
}

pub open spec fn tens(places: nat) -> nat
    decreases places,
{
    if places == 0 {
        1
    } else {
        10 * tens((places - 1) as nat)
    }
}

/// The last `places` decimal digits of `n`.
pub open spec fn last_digits(n: nat, places: nat) -> Seq<char>
    decreases places,
{
    if places == 0 {
        Seq::empty()
    } else {
        last_digits(n / 10, (places - 1) as nat).push(text::digit_char(n % 10))
    }
}

/// `n` counted in the last of `places` decimal places.
pub open spec fn point_text(n: nat, places: nat) -> Seq<char> {
    text::decimal(n / tens(places)) + "."@ + last_digits(n, places)
}

/// `x` with `places` digits behind the point, rounded to the nearest, to the
/// even digit in the middle.
pub open spec fn fixed_text(x: Double, places: nat) -> Seq<char> {
    if x.is_nan() {
        "NaN"@
    } else {
        let sign = if x.negative() {
            "-"@
        } else {
            ""@
        };
        if x.size() == INFINITE {
            sign + "inf"@
        } else {
            sign + point_text(
                round_even(
                    units(x.size() as nat) * tens(places),
                    power2::pow2(ONE_SHIFT as nat),
                ),
                places,
            )
        }
    }
}

/// A size with `k` doublings of `q` units has the size bits `k * 2^52 + q`.
proof fn lemma_units(k: nat, q: nat)
    requires
        q <= 2 * BINADE,
        k == 0 || q >= BINADE,
    ensures
        units(k * BINADE as nat + q) == q * power2::pow2(k),
{
    let b = BINADE as nat;
    let size = k * b + q;
    power2::lemma_pow2(0);
    assert(power2::pow2(0) == 1) by {
        vstd::arithmetic::power::lemma_pow0(2);
    }
    if q < b {
        assert(k == 0);
    } else if q < 2 * b {
        assert(size / b == k + 1 && size % b == q - b) by (nonlinear_arith)
            requires
                b == 0x10_0000_0000_0000,
                size == k * b + q,
                b <= q < 2 * b,
        ;
    } else {
        assert(size / b == k + 2 && size % b == 0) by (nonlinear_arith)
            requires
                b == 0x10_0000_0000_0000,
                size == k * b + q,
                q == 2 * b,
        ;
        power2::lemma_pow2_unfold(k + 1);
        assert(b * power2::pow2(k + 1) == q * power2::pow2(k)) by (nonlinear_arith)
            requires
                q == 2 * b,
                power2::pow2(k + 1) == 2 * power2::pow2(k),
        ;
    }
}

/// The next size is one step larger.
proof fn lemma_units_step(size: nat)
    ensures
        units(size) < units(size + 1),
{
    let b = BINADE as nat;
    if size < b {
        lemma_units(0, size);
        lemma_units(0, size + 1);
        power2::lemma_pow2_pos(0);
        assert(power2::pow2(0) == 1) by {
            vstd::arithmetic::power::lemma_pow0(2);
        }
    } else {
        let k = (size / b - 1) as nat;
        let q = (b + size % b) as nat;
        assert(size == k * b + q) by (nonlinear_arith)
            requires
                b == 0x10_0000_0000_0000,
                k == size / b - 1,
                q == b + size % b,
        ;
        lemma_units(k, q);
        lemma_units(k, q + 1);
        power2::lemma_pow2_pos(k);
        assert(q * power2::pow2(k) < (q + 1) * power2::pow2(k)) by (nonlinear_arith)
            requires
                power2::pow2(k) > 0,
        ;
    }
}

/// A larger size stands for a larger number.
proof fn lemma_units_grow(a: nat, b: nat)
    requires
        a < b,
    ensures
        units(a) < units(b),
    decreases b - a,
{
    if a + 1 < b {
        lemma_units_grow(a, (b - 1) as nat);
    }
    lemma_units_step((b - 1) as nat);
}

/// Only one number is the nearest.
proof fn lemma_nearest_once(a: nat, b: nat, n: nat, d: nat)
    requires
        is_nearest(a, n, d),
        d > 0,
        a < b,
    ensures
        !is_nearest(b, n, d),
{
    lemma_units_step(a);
    lemma_units_step((b - 1) as nat);
    let low = units(a) + units(a + 1);
    let high = units((b - 1) as nat) + units(b);
    if a + 1 < b {
        lemma_units_grow(a, (b - 1) as nat);
        lemma_units_grow(a + 1, b);
        assert(d * low < d * high) by (nonlinear_arith)
            requires
                low < high,
                d > 0,
        ;
    }
}

proof fn lemma_nearest_is(size: u64, n: nat, d: nat)
    requires
        is_nearest(size as nat, n, d),
        d > 0,
    ensures
        nearest(n, d) == size,
{
    let found = nearest(n, d);
    assert(is_nearest(found as nat, n, d));
    if found < size {
        lemma_nearest_once(found as nat, size as nat, n, d);
    } else if size < found {
        lemma_nearest_once(size as nat, found as nat, n, d);
    }
}

proof fn lemma_round_even(n: nat, d: nat)
    requires
        d > 0,
    ensures
        ({
            let q = round_even(n, d);
            &&& q % 2 == 0 ==> d * (2 * q - 1) <= 2 * n <= d * (2 * q + 1)
            &&& q % 2 != 0 ==> d * (2 * q - 1) < 2 * n < d * (2 * q + 1)
            &&& n / d <= q <= n / d + 1
        }),
{
    let q = n / d;
    let r = n % d;
    vstd::arithmetic::div_mod::lemma_fundamental_div_mod(n as int, d as int);
    assert(n == d * q + r);
    assert(0 <= r < d);
    assert(d * (2 * q - 1) == 2 * (d * q) - d) by (nonlinear_arith);
    assert(d * (2 * q + 1) == 2 * (d * q) + d) by (nonlinear_arith);
    assert(d * (2 * (q + 1) - 1) == 2 * (d * q) + d) by (nonlinear_arith);
    assert(d * (2 * (q + 1) + 1) == 2 * (d * q) + 3 * d) by (nonlinear_arith);
}

/// Rounding `n / d` doublings of `2^k` units, where that leaves 53 bits or `k`
/// is zero, gives the nearest number.
proof fn lemma_rounded(n: nat, d: nat, k: nat)
    requires
        d > 0,
        n < d * (2 * BINADE),
        k == 0 || n >= d * BINADE,
    ensures
        ({
            let q = round_even(n, d);
            let size = k * BINADE as nat + q;
            let p = power2::pow2(k);
            &&& q <= 2 * BINADE
            &&& k == 0 || q >= BINADE
            &&& size > 0 ==> {
                let middle = d * (units((size - 1) as nat) + units(size));
                if size % 2 == 0 {
                    2 * (n * p) >= middle
                } else {
                    2 * (n * p) > middle
                }
            }
            &&& {
                let middle = d * (units(size) + units(size + 1));
                if size % 2 == 0 {
                    2 * (n * p) <= middle
                } else {
                    2 * (n * p) < middle
                }
            }
        }),
{
    let b = BINADE as nat;
    let q = round_even(n, d);
    let size = k * b + q;
    let p = power2::pow2(k);
    power2::lemma_pow2_pos(k);
    lemma_round_even(n, d);
    assert(n / d < 2 * b) by (nonlinear_arith)
        requires
            d > 0,
            n < d * (2 * b),
    ;
    if k > 0 {
        assert(n / d >= b) by (nonlinear_arith)
            requires
                d > 0,
                n >= d * b,
        ;
    }
    assert(size % 2 == q % 2) by (nonlinear_arith)
        requires
            size == k * b + q,
            b == 0x10_0000_0000_0000,
    ;
    lemma_units(k, q);
    if size > 0 {
        let middle = d * (units((size - 1) as nat) + units(size));
        if k > 0 && q == b {
            lemma_units_step((size - 1) as nat);
            let u = units(size);
            let v = units((size - 1) as nat);
            assert(2 * (n * p) > d * (v + u)) by (nonlinear_arith)
                requires
                    u == b * p,
                    v < u,
                    n >= d * b,
                    d > 0,
                    p > 0,
            ;
        } else {
            lemma_units(k, (q - 1) as nat);
            assert(size - 1 == k * b + (q - 1));
            assert(middle == (d * (2 * q - 1)) * p) by (nonlinear_arith)
                requires
                    middle == d * ((q - 1) * p + q * p),
            ;
            assert(2 * (n * p) == (2 * n) * p) by (nonlinear_arith);
            lemma_scale(d * (2 * q - 1), (2 * n) as int, p);
        }
    }
    let middle = d * (units(size) + units(size + 1));
    if q == 2 * b {
        lemma_units_step(size);
        let u = units(size);
        let v = units(size + 1);
        assert(2 * (n * p) < d * (u + v)) by (nonlinear_arith)
            requires
                u == (2 * b) * p,
                v > u,
                n < d * (2 * b),
                d > 0,
                p > 0,
        ;
    } else {
        lemma_units(k, q + 1);
        assert(size + 1 == k * b + (q + 1));
        assert(middle == (d * (2 * q + 1)) * p) by (nonlinear_arith)
            requires
                middle == d * (q * p + (q + 1) * p),
        ;
        assert(2 * (n * p) == (2 * n) * p) by (nonlinear_arith);
        lemma_scale((2 * n) as int, (d * (2 * q + 1)) as int, p);
    }
}

proof fn lemma_scale(a: int, b: int, p: nat)
    requires
        p > 0,
    ensures
        a < b <==> a * p < b * p,
        a <= b <==> a * p <= b * p,
{
    assert(a < b ==> a * p < b * p) by (nonlinear_arith)
        requires
            p > 0,
    ;
    assert(b < a ==> b * p < a * p) by (nonlinear_arith)
        requires
            p > 0,
    ;
}

/// The nearest number depends on the ratio alone.
proof fn lemma_nearest_ratio(size: nat, n: nat, d: nat, n0: nat, d0: nat)
    requires
        is_nearest(size, n, d),
        d > 0,
        d0 > 0,
        n0 * d == n * d0,
    ensures
        is_nearest(size, n0, d0),
{
    if size > 0 {
        lemma_cross(units((size - 1) as nat) + units(size), n, d, n0, d0);
    }
    if size < INFINITE {
        lemma_cross(units(size) + units(size + 1), n, d, n0, d0);
    }
}

proof fn lemma_cross(s: nat, n: nat, d: nat, n0: nat, d0: nat)
    requires
        d > 0,
        d0 > 0,
        n0 * d == n * d0,
    ensures
        2 * n < d * s <==> 2 * n0 < d0 * s,
        2 * n > d * s <==> 2 * n0 > d0 * s,
{
    lemma_scale((2 * n) as int, (d * s) as int, d0);
    lemma_scale((2 * n0) as int, (d0 * s) as int, d);
    lemma_scale((d * s) as int, (2 * n) as int, d0);
    lemma_scale((d0 * s) as int, (2 * n0) as int, d);
    assert((d * s) * d0 == (d0 * s) * d) by (nonlinear_arith);
    assert((2 * n) * d0 == (2 * n0) * d) by (nonlinear_arith)
        requires
            n0 * d == n * d0,
    ;
}

/// The size bits of the number nearest to `num / den` times `2^k` units.
fn nearest_size(num: u128, den: u128, k: u64) -> (size: u64)
    requires
        num <= u64::MAX,
        0 < den <= 0x10_0000,
        k <= 4096,
    ensures
        size == nearest(num as nat * power2::pow2(k as nat), den as nat),
        size <= INFINITE,
{
    let ghost n0 = num as nat * power2::pow2(k as nat);
    let ghost d0 = den as nat;
    let mut n: u128 = num;
    let mut d: u128 = den;
    let mut e: u64 = k;
    while n >= d * 0x20_0000_0000_0000
        invariant
            0 < d <= 0x10_0000,
            n <= u64::MAX,
            e <= 4096 + d,
            d0 > 0,
            n0 * d == (n as nat * power2::pow2(e as nat)) * d0,
        decreases 0x20_0000 - d,
    {
        proof {
            power2::lemma_pow2_unfold((e + 1) as nat);
            let p = power2::pow2(e as nat);
            let p2 = power2::pow2((e + 1) as nat);
            assert(n0 * (d * 2) == (n as nat * p2) * d0) by (nonlinear_arith)
                requires
                    n0 * d == (n as nat * p) * d0,
                    p2 == 2 * p,
            ;
        }
        d = d * 2;
        e = e + 1;
    }
    while n < d * 0x10_0000_0000_0000 && e > 0
        invariant
            0 < d <= 0x10_0000,
            n < d * 0x20_0000_0000_0000,
            e <= 0x11_0000,
            d0 > 0,
            n0 * d == (n as nat * power2::pow2(e as nat)) * d0,
        decreases e,
    {
        proof {
            power2::lemma_pow2_unfold(e as nat);
            let p = power2::pow2(e as nat);
            let p2 = power2::pow2((e - 1) as nat);
            assert(n0 * d == ((n * 2) as nat * p2) * d0) by (nonlinear_arith)
                requires
                    n0 * d == (n as nat * p) * d0,
                    p == 2 * p2,
            ;
        }
        n = n * 2;
        e = e - 1;
    }
    let mut q: u128 = n / d;
    let r: u128 = n % d;
    if !(2 * r < d || (2 * r == d && q % 2 == 0)) {
        q = q + 1;
    }
    proof {
        lemma_rounded(n as nat, d as nat, e as nat);
        assert(q == round_even(n as nat, d as nat));
    }
    let ghost exact = e as nat * BINADE as nat + q as nat;
    let size: u64 = if e >= 2047 {
        INFINITE
    } else {
        let s: u64 = e * BINADE + q as u64;
        if s > INFINITE {
            INFINITE
        } else {
            s
        }
    };
    proof {
        let scaled = n as nat * power2::pow2(e as nat);
        if e >= 2047 {
            assert(exact >= INFINITE) by (nonlinear_arith)
                requires
                    e >= 2047,
                    exact == e as nat * 0x10_0000_0000_0000 + q as nat,
            ;
        }
        if exact > INFINITE {
            let inf = INFINITE as nat;
            if exact > inf + 1 {
                lemma_units_grow(inf, (exact - 1) as nat);
            }
            lemma_units_grow(inf, exact);
            lemma_units_step((inf - 1) as nat);
            let low = units((inf - 1) as nat) + units(inf);
            let high = units((exact - 1) as nat) + units(exact);
            assert(d * low <= d * high) by (nonlinear_arith)
                requires
                    low <= high,
            ;
        }
        assert(is_nearest(size as nat, scaled, d as nat));
        lemma_nearest_ratio(size as nat, scaled, d as nat, n0, d0);
        lemma_nearest_is(size, n0, d0);
    }
    size
}

impl Double {
    fn size_bits(self) -> (size: u64)
        ensures
            size == self.size(),
    {
        self.bits % SIGN
    }

    /// The size in units as a number below 2^53 and the doublings of it.
    fn parts(self) -> (parts: (u64, u64))
        ensures
            parts.0 < 2 * BINADE,
            parts.1 <= 2046,
            units(self.size() as nat) == parts.0 as nat * power2::pow2(parts.1 as nat),
            self.size() == parts.1 * BINADE + parts.0,
            parts.1 == 0 || parts.0 >= BINADE,
    {
        let size: u64 = self.size_bits();
        if size < BINADE {
            proof {
                lemma_units(0, size as nat);
            }
            (size, 0)
        } else {
            let k: u64 = size / BINADE - 1;
            let q: u64 = BINADE + size % BINADE;
            proof {
                assert(size == k * BINADE + q) by (nonlinear_arith)
                    requires
                        k == size / 0x10_0000_0000_0000 - 1,
                        q == 0x10_0000_0000_0000 + size % 0x10_0000_0000_0000,
                        BINADE == 0x10_0000_0000_0000,
                ;
                lemma_units(k as nat, q as nat);
            }
            (q, k)
        }
    }

    /// The same number with other size bits.
    fn with_size(self, size: u64) -> (out: Double)
        requires
            size < SIGN,
        ensures
            out == self.resized(size),
    {
        if self.bits >= SIGN {
            Double { bits: size + SIGN }
        } else {
            Double { bits: size }
        }
    }

    /// The number nearest to `n`.
    pub fn of_whole(n: u64) -> (out: Double)
        ensures
            out == whole(n as nat),
    {
        Double { bits: nearest_size(n as u128, 1, ONE_SHIFT) }
    }

    /// This number divided by the whole number `d`.
    pub fn over(self, d: u64) -> (out: Double)
        requires
            0 < d <= 0x10_0000,
        ensures
            out == divided(self, d as nat),
    {
        if self.size_bits() >= INFINITE {
            return self;
        }
        let (q, k) = self.parts();
        self.with_size(nearest_size(q as u128, d as u128, k))
    }

    /// This number multiplied by the whole number `d`.
    pub fn times(self, d: u64) -> (out: Double)
        requires
            0 < d <= 1024,
        ensures
            out == multiplied(self, d as nat),
    {
        if self.size_bits() >= INFINITE {
            return self;
        }
        let (q, k) = self.parts();
        proof {
            let p = power2::pow2(k as nat);
            assert((q * d) as nat * p == (q as nat * p) * d as nat) by (nonlinear_arith);
            assert(q * d <= 0x20_0000_0000_0000 * 1024) by (nonlinear_arith)
                requires
                    q < 0x20_0000_0000_0000,
                    d <= 1024,
            ;
        }
        self.with_size(nearest_size(q as u128 * d as u128, 1, k))
    }

    /// Whether this is a number above zero.
    pub fn is_above_zero(self) -> (yes: bool)
        ensures
            yes == above_zero(self),
    {
        let size: u64 = self.size_bits();
        proof {
            if size > 0 {
                lemma_units_grow(0, size as nat);
            }
        }
        self.bits < SIGN && 0 < size && size <= INFINITE
    }

    /// Whether this is a number and not below `other`, a number too.
    pub fn not_below(self, other: Double) -> (yes: bool)
        ensures
            yes == at_least(self, other),
    {
        let a: u64 = self.size_bits();
        let b: u64 = other.size_bits();
        if a > INFINITE || b > INFINITE {
            return false;
        }
        proof {
            if a < b {
                lemma_units_grow(a as nat, b as nat);
            }
            if b < a {
                lemma_units_grow(b as nat, a as nat);
            }
            if a > 0 {
                lemma_units_grow(0, a as nat);
            }
            if b > 0 {
                lemma_units_grow(0, b as nat);
            }
        }
        let a_neg = self.bits >= SIGN;
        let b_neg = other.bits >= SIGN;
        if a_neg && b_neg {
            a <= b
        } else if a_neg {
            a == 0 && b == 0
        } else if b_neg {
            true
        } else {
            a >= b
        }
    }

    /// Whether this number comes before `other` in the total order of bit patterns.
    pub fn ranks_before(self, other: Double) -> (yes: bool)
        ensures
            yes == (self.rank() < other.rank()),
    {
        let a: u64 = self.size_bits();
        let b: u64 = other.size_bits();
        let a_neg = self.bits >= SIGN;
        let b_neg = other.bits >= SIGN;
        if a_neg && b_neg {
            b < a
        } else if a_neg {
            true
        } else if b_neg {
            false
        } else {
            a < b
        }
    }
}

/// The number with the decimal digits `digits`, the last one first.
spec fn number(digits: Seq<u8>) -> nat
    decreases digits.len(),
{
    if digits.len() == 0 {
        0
    } else {
        digits[0] as nat + 10 * number(digits.drop_first())
    }
}

/// Decimal digits, the last one first, without zeros in front of the number.
spec fn proper(digits: Seq<u8>) -> bool {
    &&& digits.len() > 0
    &&& digits.last() != 0
    &&& forall|i: int| 0 <= i < digits.len() ==> #[trigger] digits[i] < 10
}

proof fn lemma_number_push(digits: Seq<u8>, top: u8)
    ensures
        number(digits.push(top)) == number(digits) + tens(digits.len()) * top,
    decreases digits.len(),
{
    let longer = digits.push(top);
    if digits.len() == 0 {
        assert(longer.drop_first() =~= Seq::<u8>::empty());
        assert(number(Seq::<u8>::empty()) == 0);
        let t = tens(0);
        assert(t * top == top) by (nonlinear_arith)
            requires
                t == 1,
        ;
    } else {
        lemma_number_push(digits.drop_first(), top);
        assert(longer.drop_first() =~= digits.drop_first().push(top));
        let t = tens((digits.len() - 1) as nat);
        let rest = number(digits.drop_first());
        assert(number(longer) == digits[0] + 10 * (rest + t * top));
        assert(10 * (rest + t * top) == 10 * rest + (10 * t) * top) by (nonlinear_arith);
        assert(tens(digits.len()) == 10 * t);
    }
}

proof fn lemma_number_positive(digits: Seq<u8>)
    requires
        digits.len() > 0,
        digits.last() != 0,
    ensures
        number(digits) > 0,
    decreases digits.len(),
{
    if digits.len() > 1 {
        lemma_number_positive(digits.drop_first());
    }
}

/// The decimal digits of `n`, the last one first.
fn digits_of(n: u64) -> (digits: Vec<u8>)
    requires
        n > 0,
    ensures
        proper(digits@),
        number(digits@) == n,
{
    let mut digits: Vec<u8> = Vec::new();
    let mut rest: u64 = n;
    assert(tens(0) * n == n) by (nonlinear_arith)
        requires
            tens(0) == 1,
    ;
    while rest >= 10
        invariant
            rest > 0,
            forall|i: int| 0 <= i < digits@.len() ==> #[trigger] digits@[i] < 10,
            number(digits@) + tens(digits@.len()) * rest == n,
        decreases rest,
    {
        let ghost before = digits@;
        let ghost r = rest as nat;
        proof {
            lemma_number_push(digits@, (rest % 10) as u8);
        }
        digits.push((rest % 10) as u8);
        rest = rest / 10;
        proof {
            let t = tens(before.len());
            assert(tens(digits@.len()) == 10 * t);
            assert(t * (r % 10) + (10 * t) * (r / 10) == t * r) by (nonlinear_arith)
                requires
                    r == 10 * (r / 10) + r % 10,
            ;
        }
    }
    proof {
        lemma_number_push(digits@, rest as u8);
    }
    digits.push(rest as u8);
    digits
}

/// The decimal digits of twice the number with the decimal digits `digits`.
fn doubled(digits: &Vec<u8>) -> (out: Vec<u8>)
    requires
        proper(digits@),
    ensures
        proper(out@),
        number(out@) == 2 * number(digits@),
{
    let mut out: Vec<u8> = Vec::new();
    let mut carry: u8 = 0;
    let mut i: usize = 0;
    let ghost d = digits@;
    assert(d.skip(0) =~= d);
    assert(tens(0) * (2 * number(d)) == 2 * number(d)) by (nonlinear_arith)
        requires
            tens(0) == 1,
    ;
    while i < digits.len()
        invariant
            d == digits@,
            proper(d),
            i <= d.len(),
            carry <= 1,
            out@.len() == i,
            i == d.len() ==> carry == 1 || out@.last() != 0,
            forall|j: int| 0 <= j < out@.len() ==> #[trigger] out@[j] < 10,
            number(out@) + tens(i as nat) * (carry + 2 * number(d.skip(i as int))) == 2 * number(d),
        decreases d.len() - i,
    {
        let ghost before = out@;
        let ghost low = carry as nat;
        let x: u8 = digits[i];
        let v: u8 = 2 * x + carry;
        proof {
            assert(d.skip(i as int).drop_first() =~= d.skip(i + 1));
            lemma_number_push(before, (v % 10) as u8);
            let t = tens(i as nat);
            let rest = number(d.skip(i + 1));
            assert(tens((i + 1) as nat) == 10 * t);
            let r = (v % 10) as nat;
            let c = (v / 10) as nat;
            assert(t * r + (10 * t) * (c + 2 * rest) == t * (low + 2 * (x as nat + 10 * rest)))
                by (nonlinear_arith)
                requires
                    2 * x as nat + low == 10 * c + r,
            ;
        }
        out.push(v % 10);
        carry = v / 10;
        i = i + 1;
        proof {
            if i == d.len() {
                assert(x == d.last());
            }
        }
    }
    proof {
        assert(d.skip(d.len() as int) =~= Seq::<u8>::empty());
        assert(number(Seq::<u8>::empty()) == 0);
        let t = tens(d.len());
        assert(t * (carry + 2 * 0) == t * carry);
        lemma_number_push(out@, carry);
        if carry == 0 {
            assert(t * 0 == 0) by (nonlinear_arith);
        }
    }
    if carry > 0 {
        out.push(carry);
    }
    out
}

/// Writes the number with the decimal digits `digits`.
fn push_digits(out: &mut String, digits: &Vec<u8>)
    requires
        proper(digits@),
    ensures
        final(out)@ == old(out)@ + text::decimal(number(digits@)),
{
    let ghost base = out@;
    let ghost d = digits@;
    let mut i: usize = digits.len() - 1;
    proof {
        assert(d.skip(d.len() - 1).drop_first() =~= Seq::<u8>::empty());
        assert(number(Seq::<u8>::empty()) == 0);
        assert(number(d.skip(d.len() - 1)) == d.last());
    }
    text::push_digit(out, digits[i]);
    assert(out@ =~= base + text::decimal(number(d.skip(i as int))));
    while i > 0
        invariant
            d == digits@,
            proper(d),
            i < d.len(),
            out@ == base + text::decimal(number(d.skip(i as int))),
        decreases i,
    {
        proof {
            lemma_number_positive(d.skip(i as int));
            assert(d.skip(i - 1).drop_first() =~= d.skip(i as int));
        }
        i = i - 1;
        text::push_digit(out, digits[i]);
        assert(out@ =~= base + text::decimal(number(d.skip(i as int))));
    }
    assert(d.skip(0) =~= d);
}

fn push_last_digits(out: &mut String, n: u64, places: u32)
    ensures
        final(out)@ == old(out)@ + last_digits(n as nat, places as nat),
    decreases places,
{
    if places > 0 {
        push_last_digits(out, n / 10, places - 1);
        text::push_digit(out, (n % 10) as u8);
    }
    assert(out@ =~= old(out)@ + last_digits(n as nat, places as nat));
}

proof fn lemma_last_digits_zero(n: nat, places: nat)
    ensures
        last_digits(n * tens(places), places) == last_digits(0, places),
    decreases places,
{
    if places > 0 {
        let t = tens((places - 1) as nat);
        assert(n * (10 * t) == 10 * (n * t)) by (nonlinear_arith);
        lemma_last_digits_zero(n, (places - 1) as nat);
    }
}

proof fn lemma_tens_positive(places: nat)
    ensures
        tens(places) > 0,
    decreases places,
{
    if places > 0 {
        lemma_tens_positive((places - 1) as nat);
    }
}

/// Rounding depends on the ratio alone.
proof fn lemma_round_even_scaled(n: nat, d: nat, c: nat)
    requires
        d > 0,
        c > 0,
    ensures
        round_even(n * c, d * c) == round_even(n, d),
{
    let q = n / d;
    let r = n % d;
    vstd::arithmetic::div_mod::lemma_fundamental_div_mod(n as int, d as int);
    assert(n * c == q * (d * c) + r * c) by (nonlinear_arith)
        requires
            n == d * q + r,
    ;
    assert(0 <= r * c < d * c) by (nonlinear_arith)
        requires
            0 <= r < d,
            c > 0,
    ;
    vstd::arithmetic::div_mod::lemma_fundamental_div_mod_converse(
        (n * c) as int,
        (d * c) as int,
        q as int,
        (r * c) as int,
    );
    lemma_scale((2 * r) as int, d as int, c);
    lemma_scale(d as int, (2 * r) as int, c);
    assert(2 * (r * c) == (2 * r) * c) by (nonlinear_arith);
}

/// What rounds to `q * 2^k` units in the last of `places` decimal places.
spec fn rounded(q: u64, k: u64, places: nat) -> nat {
    round_even(
        (q as nat * power2::pow2(k as nat)) * tens(places),
        power2::pow2(ONE_SHIFT as nat),
    )
}

fn power_of_ten(places: u32) -> (ten: u64)
    requires
        places <= 3,
    ensures
        ten == tens(places as nat),
        0 < ten <= 1000,
{
    proof {
        reveal_with_fuel(tens, 4);
    }
    if places == 0 {
        1
    } else if places == 1 {
        10
    } else if places == 2 {
        100
    } else {
        1000
    }
}

/// Appends a whole number of at least one with `places` zeros behind the point.
fn push_whole(out: &mut String, q: u64, k: u64, places: u32)
    requires
        BINADE <= q < 2 * BINADE,
        ONE_SHIFT <= k <= 2046,
        places <= 3,
    ensures
        final(out)@ == old(out)@ + point_text(rounded(q, k, places as nat), places as nat),
{
    let ghost start = out@;
    let ghost one = power2::pow2(ONE_SHIFT as nat);
    let ghost n = rounded(q, k, places as nat);
    let ghost t = tens(places as nat);
    let mut digits = digits_of(q);
    let mut i: u64 = ONE_SHIFT;
    proof {
        assert(power2::pow2(0) == 1) by {
            vstd::arithmetic::power::lemma_pow0(2);
        }
        assert(q * 1 == q);
    }
    while i < k
        invariant
            ONE_SHIFT <= i <= k,
            k <= 2046,
            proper(digits@),
            number(digits@) == q as nat * power2::pow2((i - ONE_SHIFT) as nat),
        decreases k - i,
    {
        proof {
            power2::lemma_pow2_unfold((i + 1 - ONE_SHIFT) as nat);
            let p = power2::pow2((i - ONE_SHIFT) as nat);
            let p2 = power2::pow2((i + 1 - ONE_SHIFT) as nat);
            assert(2 * (q as nat * p) == q as nat * p2) by (nonlinear_arith)
                requires
                    p2 == 2 * p,
            ;
        }
        digits = doubled(&digits);
        i = i + 1;
    }
    proof {
        lemma_tens_positive(places as nat);
        power2::lemma_pow2_pos(ONE_SHIFT as nat);
        let p = power2::pow2((k - ONE_SHIFT) as nat);
        let v = q as nat * p;
        power2::lemma_pow2_adds((k - ONE_SHIFT) as nat, ONE_SHIFT as nat);
        let u = q as nat * power2::pow2(k as nat);
        assert(u * t == (v * t) * one) by (nonlinear_arith)
            requires
                u == q as nat * (p * one),
                v == q as nat * p,
        ;
        vstd::arithmetic::div_mod::lemma_fundamental_div_mod_converse(
            (u * t) as int,
            one as int,
            (v * t) as int,
            0,
        );
        assert(n == v * t);
        vstd::arithmetic::div_mod::lemma_fundamental_div_mod_converse(
            n as int,
            t as int,
            v as int,
            0,
        );
        lemma_last_digits_zero(v, places as nat);
    }
    push_digits(out, &digits);
    out.append(".");
    push_last_digits(out, 0, places);
    assert(out@ =~= start + point_text(n, places as nat));
}

/// `top / 2^s`, rounded to the nearest whole number, to the even one in the
/// middle.
fn rounded_shift(top: u64, s: u64) -> (value: u64)
    requires
        top < 0x8000_0000_0000_0000,
    ensures
        value == round_even(top as nat, power2::pow2(s as nat)),
{
    let ghost half = power2::pow2(s as nat);
    proof {
        power2::lemma_pow2_pos(s as nat);
        vstd::arithmetic::power2::lemma2_to64();
        vstd::arithmetic::power2::lemma2_to64_rest();
    }
    if s > 64 {
        proof {
            power2::lemma_pow2_strictly_increases(64, s as nat);
            vstd::arithmetic::div_mod::lemma_fundamental_div_mod_converse(
                top as int,
                half as int,
                0,
                top as int,
            );
        }
        return 0;
    }
    let mut den: u128 = 1;
    let mut i: u64 = 0;
    while i < s
        invariant
            i <= s <= 64,
            den == power2::pow2(i as nat),
            den <= 0x1_0000_0000_0000_0000,
        decreases s - i,
    {
        proof {
            power2::lemma_pow2_unfold((i + 1) as nat);
            vstd::arithmetic::power2::lemma2_to64();
            vstd::arithmetic::power2::lemma2_to64_rest();
            if i + 1 < 64 {
                power2::lemma_pow2_strictly_increases((i + 1) as nat, 64);
            }
        }
        den = den * 2;
        i = i + 1;
    }
    let mut r: u128 = top as u128 / den;
    let m: u128 = top as u128 % den;
    if !(2 * m < den || (2 * m == den && r % 2 == 0)) {
        r = r + 1;
    }
    proof {
        assert(top as u128 / den <= top) by (nonlinear_arith)
            requires
                den > 0,
        ;
    }
    r as u64
}

/// Appends `q * 2^k` units, below the whole numbers that every bit of counts, with
/// `places` digits behind the point.
fn push_broken(out: &mut String, q: u64, k: u64, places: u32)
    requires
        q < 2 * BINADE,
        k < ONE_SHIFT,
        places <= 3,
    ensures
        final(out)@ == old(out)@ + point_text(rounded(q, k, places as nat), places as nat),
{
    let ghost start = out@;
    let ghost t = tens(places as nat);
    let ten: u64 = power_of_ten(places);
    let s: u64 = ONE_SHIFT - k;
    assert(q * ten < 0x20_0000_0000_0000 * 1000) by (nonlinear_arith)
        requires
            q < 0x20_0000_0000_0000,
            0 < ten <= 1000,
    ;
    let top: u64 = q * ten;
    proof {
        let half = power2::pow2(s as nat);
        power2::lemma_pow2_adds(s as nat, k as nat);
        power2::lemma_pow2_pos(s as nat);
        power2::lemma_pow2_pos(k as nat);
        let p = power2::pow2(k as nat);
        assert((q as nat * p) * t == (q as nat * t) * p) by (nonlinear_arith);
        lemma_round_even_scaled(q as nat * t, half, p);
    }
    let value: u64 = rounded_shift(top, s);
    text::push_u64(out, value / ten);
    out.append(".");
    push_last_digits(out, value, places);
    assert(out@ =~= start + point_text(value as nat, places as nat));
}

impl Double {
    /// This number with `places` digits behind the point, rounded to the nearest,
    /// to the even digit in the middle.
    pub fn fixed(self, places: u32) -> (out: String)
        requires
            places <= 3,
        ensures
            out@ == fixed_text(self, places as nat),
    {
        let size: u64 = self.size_bits();
        if size > INFINITE {
            return "NaN".to_owned();
        }
        let mut out = if self.bits >= SIGN {
            "-".to_owned()
        } else {
            "".to_owned()
        };
        if size == INFINITE {
            out.append("inf");
            return out;
        }
        let (q, k) = self.parts();
        if k >= ONE_SHIFT {
            push_whole(&mut out, q, k, places);
        } else {
            push_broken(&mut out, q, k, places);
        }
        out
    }
}

/// A number that is written out neither begins nor ends with white space.
pub proof fn lemma_fixed_text_ends(x: Double, places: nat)
    requires
        places > 0,
    ensures
        fixed_text(x, places).len() > 0,
        !text::is_space(fixed_text(x, places)[0]),
        !text::is_space(fixed_text(x, places).last()),
{
    reveal_strlit("NaN");
    reveal_strlit("inf");
    reveal_strlit("-");
    reveal_strlit("");
    reveal_strlit(".");
    if !x.is_nan() && x.size() != INFINITE {
        let n = round_even(
            units(x.size() as nat) * tens(places),
            power2::pow2(ONE_SHIFT as nat),
        );
        let shown = fixed_text(x, places);
        lemma_tens_positive(places);
        let head: nat = n / tens(places);
        let front = text::decimal(head);
        text::lemma_signed_decimal_chars(head as int);
        assert(text::signed_decimal(head as int) == front);
        assert(text::is_digit(front[0]) || front[0] == '-');
        let back = last_digits(n, places);
        assert(back.last() == text::digit_char(n % 10));
        assert(shown.last() == back.last());
        if x.negative() {
            assert(shown[0] == '-');
        } else {
            assert(shown[0] == front[0]);
        }
    }
}

/// How often `v` has to be doubled to reach `low`.
proof fn lemma_doublings(v: nat, low: nat) -> (j: nat)
    requires
        0 < v < 2 * low,
        low <= 0x4000_0000_0000_0000,
    ensures
        low <= v * power2::pow2(j) < 2 * low,
        j < 64,
    decreases 2 * low - v,
{
    assert(power2::pow2(0) == 1) by {
        vstd::arithmetic::power::lemma_pow0(2);
    }
    if v >= low {
        assert(v * power2::pow2(0) == v) by (nonlinear_arith)
            requires
                power2::pow2(0) == 1,
        ;
        0
    } else {
        let i = lemma_doublings(2 * v, low);
        let j = i + 1;
        power2::lemma_pow2_unfold(j);
        let (p, p2) = (power2::pow2(i), power2::pow2(j));
        assert((2 * v) * p == v * p2) by (nonlinear_arith)
            requires
                p2 == 2 * p,
        ;
        if j >= 64 {
            vstd::arithmetic::power2::lemma2_to64();
            vstd::arithmetic::power2::lemma2_to64_rest();
            if j > 64 {
                power2::lemma_pow2_strictly_increases(64, j);
            }
            assert(v * p2 >= p2) by (nonlinear_arith)
                requires
                    v >= 1,
                    p2 >= 0,
            ;
        }
        j
    }
}

/// A number that the size bits give exactly is the nearest.
proof fn lemma_exact(size: u64, n: nat, d: nat)
    requires
        0 < size < INFINITE,
        d > 0,
        n == d * units(size as nat),
    ensures
        nearest(n, d) == size,
{
    lemma_units_step((size - 1) as nat);
    lemma_units_step(size as nat);
    let (a, b, c) = (units((size - 1) as nat), units(size as nat), units(size as nat + 1));
    assert(d * (a + b) < 2 * n && 2 * n < d * (b + c)) by (nonlinear_arith)
        requires
            n == d * b,
            a < b < c,
            d > 0,
    ;
    lemma_nearest_is(size, n, d);
}

/// The size bits for `v` units doubled `k` times, where `v` has at most 53 bits
/// and no more doublings than it takes to fill them are undone.
proof fn lemma_size_for(v: nat, k: nat) -> (size: u64)
    requires
        0 < v < 2 * BINADE,
        52 <= k <= 1500,
    ensures
        0 < size < INFINITE,
        units(size as nat) == v * power2::pow2(k),
{
    let j = lemma_doublings(v, BINADE as nat);
    if j > 52 {
        vstd::arithmetic::power2::lemma2_to64();
        power2::lemma_pow2_strictly_increases(52, j);
        let p = power2::pow2(j);
        power2::lemma_pow2_unfold(53);
        if j > 53 {
            power2::lemma_pow2_strictly_increases(53, j);
        }
        vstd::arithmetic::power2::lemma2_to64_rest();
        assert(v * p >= p) by (nonlinear_arith)
            requires
                v >= 1,
                p >= 0,
        ;
    }
    let q = v * power2::pow2(j);
    let e = (k - j) as nat;
    lemma_units(e, q);
    power2::lemma_pow2_adds(j, e);
    let (p, r, all) = (power2::pow2(j), power2::pow2(e), power2::pow2(k));
    assert((v * p) * r == v * all) by (nonlinear_arith)
        requires
            all == p * r,
    ;
    let size = e * BINADE as nat + q;
    assert(size < 1502 * BINADE as nat) by (nonlinear_arith)
        requires
            size == e * (BINADE as nat) + q,
            e <= 1500,
            q < 2 * (BINADE as nat),
    ;
    size as u64
}

/// Whole numbers of at most 53 bits are held exactly.
pub proof fn law_whole_numbers_are_exact(v: u64)
    requires
        0 < v < 2 * BINADE,
    ensures
        units(whole(v as nat).size() as nat) == v as nat * power2::pow2(ONE_SHIFT as nat),
        0 < whole(v as nat).size() < INFINITE,
        !whole(v as nat).negative(),
{
    let size = lemma_size_for(v as nat, ONE_SHIFT as nat);
    let n = v as nat * power2::pow2(ONE_SHIFT as nat);
    assert(n == 1 * units(size as nat));
    lemma_exact(size, n, 1);
}

proof fn lemma_fixed_of(x: Double, places: nat)
    requires
        x.size() < INFINITE,
        !x.negative(),
    ensures
        fixed_text(x, places) == point_text(
            round_even(
                units(x.size() as nat) * tens(places),
                power2::pow2(ONE_SHIFT as nat),
            ),
            places,
        ),
{
    reveal_strlit("");
    let shown = point_text(
        round_even(units(x.size() as nat) * tens(places), power2::pow2(ONE_SHIFT as nat)),
        places,
    );
    assert(""@ + shown =~= shown);
}

/// Dividing a whole number by a power of two and showing one digit loses nothing
/// but what lies behind that digit.
pub proof fn law_binary_quotients_show_exactly(v: u64, s: nat)
    requires
        0 < v < 2 * BINADE,
        s <= 20,
    ensures
        fixed_text(divided(whole(v as nat), power2::pow2(s)), 1) == point_text(
            round_even(10 * v as nat, power2::pow2(s)),
            1,
        ),
{
    law_whole_numbers_are_exact(v);
    let x = whole(v as nat);
    let one = power2::pow2(ONE_SHIFT as nat);
    let d = power2::pow2(s);
    let k = (ONE_SHIFT - s) as nat;
    let size = lemma_size_for(v as nat, k);
    power2::lemma_pow2_adds(s, k);
    power2::lemma_pow2_pos(s);
    power2::lemma_pow2_pos(k);
    let p = power2::pow2(k);
    let u = units(x.size() as nat);
    assert(u == d * units(size as nat)) by (nonlinear_arith)
        requires
            u == v as nat * one,
            one == d * p,
            units(size as nat) == v as nat * p,
    ;
    lemma_exact(size, u, d);
    let y = divided(x, d);
    assert(y.size() == size);
    lemma_fixed_of(y, 1);
    reveal_with_fuel(tens, 2);
    assert(units(size as nat) * 10 == (10 * v as nat) * p) by (nonlinear_arith)
        requires
            units(size as nat) == v as nat * p,
    ;
    lemma_round_even_scaled(10 * v as nat, d, p);
}

proof fn lemma_round_even_is(n: nat, d: nat, q: nat)
    requires
        d > 0,
        d * (2 * q - 1) < 2 * n < d * (2 * q + 1),
    ensures
        round_even(n, d) == q,
{
    lemma_round_even(n, d);
    let r = round_even(n, d) as int;
    let q = q as int;
    if r < q {
        assert(d * (2 * r + 1) <= d * (2 * q - 1)) by (nonlinear_arith)
            requires
                r + 1 <= q,
                d > 0,
        ;
    } else if q < r {
        assert(d * (2 * q + 1) <= d * (2 * r - 1)) by (nonlinear_arith)
            requires
                q + 1 <= r,
                d > 0,
        ;
    }
}

/// A thousandth of a whole number shows as its tenths, rounded to the nearest,
/// where it does not lie in the middle of two tenths.
pub proof fn law_thousandths_show_as_tenths(v: u64)
    requires
        0 < v < BINADE,
        v % 100 != 50,
    ensures
        fixed_text(divided(whole(v as nat), 1000), 1) == point_text(((v + 50) / 100) as nat, 1),
{
    law_whole_numbers_are_exact(v);
    let x = whole(v as nat);
    let one = power2::pow2(ONE_SHIFT as nat);
    let u = units(x.size() as nat);
    let low = 1000 * BINADE as nat;
    let j = lemma_doublings(v as nat, low);
    let n = v as nat * power2::pow2(j);
    let k = (ONE_SHIFT - j) as nat;
    let (pj, p) = (power2::pow2(j), power2::pow2(k));
    power2::lemma_pow2_adds(j, k);
    power2::lemma_pow2_pos(k);
    power2::lemma_pow2_pos(j);
    assert(n * p == u) by (nonlinear_arith)
        requires
            n == v as nat * pj,
            u == v as nat * one,
            one == pj * p,
    ;
    assert(pj > 1000) by (nonlinear_arith)
        requires
            v as nat * pj >= 1000 * (BINADE as nat),
            v < BINADE,
            pj > 0,
    ;
    lemma_rounded(n, 1000, k);
    let q = round_even(n, 1000);
    lemma_round_even(n, 1000);
    lemma_units(k, q);
    let size = k * BINADE as nat + q;
    assert(0 < size < INFINITE) by (nonlinear_arith)
        requires
            size == k * (BINADE as nat) + q,
            q <= 2 * (BINADE as nat),
            q >= 1 || k >= 1,
            k <= 1074,
            BINADE == 0x10_0000_0000_0000,
            INFINITE == 0x7ff0_0000_0000_0000,
    ;
    lemma_nearest_is(size as u64, u, 1000);
    let y = divided(x, 1000);
    assert(y.size() == size);
    lemma_fixed_of(y, 1);
    reveal_with_fuel(tens, 2);
    let big = units(size) * 10;
    let w = ((v + 50) / 100) as nat;
    let t = v as int - 100 * w as int;
    assert(-50 < t < 50);
    // The quotient is off by less than a thousandth of a unit in the last place.
    let off = 1000 * q as int - n as int;
    assert(-500 <= off <= 500);
    assert(100 * big == 100 * w * one + t * one + off * p) by (nonlinear_arith)
        requires
            big == (q * p) * 10,
            off == 1000 * q as int - n as int,
            n * p == v as nat * one,
            t == v as int - 100 * w as int,
    ;
    assert(-one < off * p < one) by (nonlinear_arith)
        requires
            one == pj * p,
            pj > 1000,
            p > 0,
            -500 <= off <= 500,
    ;
    assert(one * (2 * w - 1) < 2 * big && 2 * big < one * (2 * w + 1)) by (nonlinear_arith)
        requires
            100 * big == 100 * w * one + t * one + off * p,
            -one < off * p < one,
            -50 < t < 50,
            one > 0,
    ;
    lemma_round_even_is(big, one, w);
}

/// A larger number ranks higher, and a number that ranks higher is not smaller. What
/// is no number is not at least anything, and nothing is at least it.
pub proof fn law_larger_numbers_rank_higher(x: Double, y: Double)
    ensures
        !x.is_nan() && !y.is_nan() ==> {
            &&& x.value() > y.value() ==> x.rank() > y.rank()
            &&& x.rank() > y.rank() ==> at_least(x, y)
            &&& at_least(x, y) || at_least(y, x)
        },
        x.is_nan() || y.is_nan() ==> !at_least(x, y),
        above_zero(x) <==> !x.is_nan() && !x.negative() && x.size() > 0,
{
    let (a, b) = (x.size() as nat, y.size() as nat);
    if a < b {
        lemma_units_grow(a, b);
    } else if b < a {
        lemma_units_grow(b, a);
    }
    if a > 0 {
        lemma_units_grow(0, a);
    }
    if b > 0 {
        lemma_units_grow(0, b);
    }
}

/// A hundredth of a hundredfold is the number again, and a hundredfold of a hundredth.
pub proof fn law_hundredths_undo_hundredfolds(v: u64)
    requires
        0 < v < 0x400_0000_0000,
    ensures
        multiplied(whole(v as nat), 100) == whole(100 * v as nat),
        divided(whole(100 * v as nat), 100) == whole(v as nat),
{
    let more = (100 * v) as u64;
    let one = power2::pow2(ONE_SHIFT as nat);
    law_whole_numbers_are_exact(v);
    law_whole_numbers_are_exact(more);
    let (x, y) = (whole(v as nat), whole(more as nat));
    let (a, b) = (units(x.size() as nat), units(y.size() as nat));
    assert(a * 100 == b) by (nonlinear_arith)
        requires
            a == v as nat * one,
            b == more as nat * one,
            more == 100 * v,
    ;
    lemma_exact(y.size(), a * 100, 1);
    lemma_exact(x.size(), b, 100);
    lemma_whole_bits(v);
    lemma_whole_bits(more);
}

proof fn lemma_whole_bits(v: u64)
    requires
        0 < v < 2 * BINADE,
    ensures
        whole(v as nat).bits == whole(v as nat).size(),
{
    law_whole_numbers_are_exact(v);
}

/// A decimal with some places is its whole part, a point, and as many digits as
/// there are places, which stand for the rest.
pub proof fn law_point_parts_whole_and_rest(n: nat, places: nat)
    ensures
        ({
            let tens = tens(places);
            let shown = point_text(n, places);
            let rest = last_digits(n, places);
            &&& shown == text::decimal(n / tens) + "."@ + rest
            &&& rest.len() == places
            &&& text::all_digits(rest)
            &&& text::digits_value(rest) == n % tens
        }),
        tens(0) == 1,
        tens(places + 1) == 10 * tens(places),
{
    lemma_last_digits(n, places);
}

proof fn lemma_last_digits(n: nat, places: nat)
    ensures
        last_digits(n, places).len() == places,
        text::all_digits(last_digits(n, places)),
        text::digits_value(last_digits(n, places)) == n % tens(places),
        tens(places) > 0,
    decreases places,
{
    lemma_tens_positive(places);
    if places > 0 {
        let fewer = (places - 1) as nat;
        lemma_last_digits(n / 10, fewer);
        let head = last_digits(n / 10, fewer);
        let all = last_digits(n, places);
        assert(all.drop_last() =~= head);
        assert(text::digit_char(n % 10) as nat - 48 == n % 10);
        assert forall|i: int| 0 <= i < all.len() implies text::is_digit(#[trigger] all[i]) by {
            if i < head.len() {
                assert(all[i] == head[i]);
            }
        }
        let t = tens(fewer);
        assert(n % (10 * t) == (n / 10) % t * 10 + n % 10) by (nonlinear_arith)
            requires
                t > 0,
        {
            vstd::arithmetic::div_mod::lemma_breakdown(n as int, 10, t as int);
        }
    }
}

/// A whole number shows as itself, with zeros behind the point.
pub proof fn law_whole_numbers_show_as_themselves(v: u64, places: nat)
    requires
        0 < v < 2 * BINADE,
    ensures
        fixed_text(whole(v as nat), places) == text::decimal(v as nat) + "."@ + Seq::new(
            places,
            |i: int| '0',
        ),
{
    law_whole_numbers_are_exact(v);
    let x = whole(v as nat);
    let one = power2::pow2(ONE_SHIFT as nat);
    power2::lemma_pow2_pos(ONE_SHIFT as nat);
    lemma_fixed_of(x, places);
    lemma_tens_positive(places);
    let t = tens(places);
    let n = units(x.size() as nat) * t;
    assert(n == (v as nat * t) * one) by (nonlinear_arith)
        requires
            n == (v as nat * one) * t,
    ;
    vstd::arithmetic::div_mod::lemma_div_multiples_vanish((v as nat * t) as int, one as int);
    vstd::arithmetic::div_mod::lemma_mod_multiples_basic((v as nat * t) as int, one as int);
    assert(one * (v as nat * t) == (v as nat * t) * one) by (nonlinear_arith);
    assert(round_even(n, one) == v as nat * t);
    vstd::arithmetic::div_mod::lemma_div_multiples_vanish(v as int, t as int);
    assert(t * v as nat == v as nat * t) by (nonlinear_arith);
    lemma_last_digits_zero(v as nat, places);
    lemma_zeros(places);
}

proof fn lemma_zeros(places: nat)
    ensures
        last_digits(0, places) == Seq::new(places, |i: int| '0'),
    decreases places,
{
    if places > 0 {
        lemma_zeros((places - 1) as nat);
        assert(text::digit_char(0) == '0');
    }
    assert(last_digits(0, places) =~= Seq::new(places, |i: int| '0'));
}

/// What is no number says so, and a negative number shows as its opposite with a
/// minus sign in front.
pub proof fn law_signs_and_odd_numbers_show(x: Double, places: nat)
    ensures
        x.is_nan() ==> fixed_text(x, places) == "NaN"@,
        !x.is_nan() && !x.negative() ==> fixed_text(
            Double { bits: (x.bits + SIGN) as u64 },
            places,
        ) == "-"@ + fixed_text(x, places),
        x.bits == 0x7ff0_0000_0000_0000 ==> fixed_text(x, places) == "inf"@,
{
    reveal_strlit("");
    if !x.is_nan() && !x.negative() {
        let below = Double { bits: (x.bits + SIGN) as u64 };
        assert(below.negative() && below.size() == x.size());
        assert(fixed_text(below, places) =~= "-"@ + fixed_text(x, places));
    }
    if x.bits == 0x7ff0_0000_0000_0000 {
        assert(fixed_text(x, places) =~= "inf"@);
    }
}

} // verus!
