//! Fixed-point numbers: evaluations without floating point.
//!
//! A `Fixed` counts billionths in an `i64`. Results round toward zero and stop at the ends of
//! the range, so no operation fails. The hyperbolic tangent is a rational approximation, the
//! logarithm is linear between the powers of two, and the square root is exact to the last
//! billionth.
use vstd::prelude::*;

use crate::arith::{measured, Arith, RootArith, RootScore, Score};

verus! {

/// The number one, in billionths.
pub const ONE: i64 = 1_000_000_000;

/// The natural logarithm of two, in billionths.
pub const LN_TWO: i64 = 693_147_181;

/// A number of billionths.
#[derive(Clone, Copy)]
pub struct Fixed {
    pub raw: i64,
}

/// `n`, or the end of the range that it is beyond.
pub open spec fn limited(n: int) -> Fixed {
    Fixed {
        raw: if n > i64::MAX {
            i64::MAX
        } else if n < -i64::MAX {
            -i64::MAX as i64
        } else {
            n as i64
        },
    }
}

/// `n / d` rounded toward zero.
pub open spec fn toward_zero(n: int, d: int) -> int {
    if n < 0 {
        -((-n) / d)
    } else {
        n / d
    }
}

/// The odd rational function `x * (27 + x * x) / (27 + 9 * x * x)`, and one from three on.
pub open spec fn tanh_like(x: int) -> int {
    if x >= 3 * ONE {
        ONE as int
    } else if x <= -3 * ONE {
        -ONE
    } else {
        let square = x * x / ONE as int;
        toward_zero(x * (27 * ONE + square), 27 * ONE + 9 * square)
    }
}

/// How often `n` can be halved before it is less than two.
pub open spec fn halvings(n: int) -> int
    decreases n,
{
    if n < 2 * ONE {
        0
    } else {
        1 + halvings(n / 2)
    }
}

/// What is left of `n` after these halvings.
pub open spec fn halved(n: int) -> int
    decreases n,
{
    if n < 2 * ONE {
        n
    } else {
        halved(n / 2)
    }
}

/// The logarithm of a number that is at least one; zero for others.
pub open spec fn ln_like(n: int) -> int {
    if n < ONE {
        0
    } else {
        (halvings(n) * ONE + halved(n) - ONE) * LN_TWO / ONE as int
    }
}

/// `r` is the whole part of the square root of `n`.
pub open spec fn is_root(r: int, n: int) -> bool {
    0 <= r && r * r <= n < (r + 1) * (r + 1)
}

pub open spec fn root_of(n: int) -> int {
    choose|r: int| is_root(r, n)
}

proof fn lemma_root_unique(r: int, n: int)
    requires
        is_root(r, n),
    ensures
        root_of(n) == r,
{
    let s = root_of(n);
    assert(is_root(s, n));
    assert(s == r) by (nonlinear_arith)
        requires
            0 <= r,
            0 <= s,
            r * r <= n < (r + 1) * (r + 1),
            s * s <= n < (s + 1) * (s + 1),
    ;
}

impl Arith for Fixed {
    open spec fn ratio_of(num: i64, den: i64) -> Self {
        limited(toward_zero(num * ONE, den as int))
    }

    open spec fn sum_of(a: Self, b: Self) -> Self {
        limited(a.raw + b.raw)
    }

    open spec fn difference_of(a: Self, b: Self) -> Self {
        limited(a.raw - b.raw)
    }

    open spec fn product_of(a: Self, b: Self) -> Self {
        limited(toward_zero(a.raw * b.raw, ONE as int))
    }

    /// A quotient by zero is the end of the range on the side of the dividend.
    open spec fn quotient_of(a: Self, b: Self) -> Self {
        if b.raw > 0 {
            limited(toward_zero(a.raw * ONE, b.raw as int))
        } else if b.raw < 0 {
            limited(toward_zero(-(a.raw * ONE), -b.raw))
        } else if a.raw < 0 {
            limited(-i64::MAX)
        } else {
            limited(i64::MAX as int)
        }
    }

    open spec fn negation_of(a: Self) -> Self {
        limited(-a.raw)
    }

    open spec fn is_less(a: Self, b: Self) -> bool {
        a.raw < b.raw
    }

    open spec fn is_at_most(a: Self, b: Self) -> bool {
        a.raw <= b.raw
    }

    open spec fn is_same(a: Self, b: Self) -> bool {
        a.raw == b.raw
    }

    open spec fn tanh_of(a: Self) -> Self {
        limited(tanh_like(a.raw as int))
    }

    open spec fn lowest_of() -> Self {
        limited(-i64::MAX)
    }

    /// Halves round away from zero.
    open spec fn milli_of(a: Self) -> i64 {
        if a.raw >= ONE {
            1000
        } else if a.raw <= -ONE {
            -1000i64
        } else if a.raw >= 0 {
            ((a.raw + 500_000) / 1_000_000) as i64
        } else {
            (-((500_000 - a.raw) / 1_000_000)) as i64
        }
    }
}

impl RootArith for Fixed {
    open spec fn ln_of(a: Self) -> Self {
        limited(ln_like(a.raw as int))
    }

    /// Zero for negative numbers.
    open spec fn sqrt_of(a: Self) -> Self {
        if a.raw <= 0 {
            limited(0)
        } else {
            limited(root_of(a.raw * ONE))
        }
    }
}

/// The number of billionths, held to the range.
fn limit(n: i128) -> (r: Fixed)
    ensures
        r == limited(n as int),
{
    if n > i64::MAX as i128 {
        Fixed { raw: i64::MAX }
    } else if n < -(i64::MAX as i128) {
        Fixed { raw: -i64::MAX }
    } else {
        Fixed { raw: n as i64 }
    }
}

/// The product of two numbers of billionths, which is a number of billionths of billionths.
fn widened(a: i64, b: i64) -> (r: i128)
    ensures
        r == a * b,
        -0x4000_0000_0000_0000_0000_0000_0000_0000 <= r
            <= 0x4000_0000_0000_0000_0000_0000_0000_0000,
{
    let x = a as i128;
    let y = b as i128;
    assert(-0x4000_0000_0000_0000_0000_0000_0000_0000 <= x * y
        <= 0x4000_0000_0000_0000_0000_0000_0000_0000) by (nonlinear_arith)
        requires
            -0x8000_0000_0000_0000 <= x <= 0x7fff_ffff_ffff_ffff,
            -0x8000_0000_0000_0000 <= y <= 0x7fff_ffff_ffff_ffff,
    ;
    x * y
}

fn divided(n: i128, d: i128) -> (r: i128)
    requires
        d > 0,
        -0x4000_0000_0000_0000_0000_0000_0000_0000 <= n
            <= 0x4000_0000_0000_0000_0000_0000_0000_0000,
    ensures
        r == toward_zero(n as int, d as int),
{
    if n < 0 {
        let size: i128 = -n;
        proof {
            vstd::arithmetic::div_mod::lemma_div_pos_is_pos(size as int, d as int);
            vstd::arithmetic::div_mod::lemma_div_is_ordered_by_denominator(
                size as int,
                1,
                d as int,
            );
        }
        -(size / d)
    } else {
        n / d
    }
}

impl Score for Fixed {
    fn ratio(num: i64, den: i64) -> (r: Self) {
        limit(divided(widened(num, ONE), den as i128))
    }

    fn plus(self, b: Self) -> (r: Self) {
        limit(self.raw as i128 + b.raw as i128)
    }

    fn minus(self, b: Self) -> (r: Self) {
        limit(self.raw as i128 - b.raw as i128)
    }

    fn times(self, b: Self) -> (r: Self) {
        limit(divided(widened(self.raw, b.raw), ONE as i128))
    }

    fn over(self, b: Self) -> (r: Self) {
        let n: i128 = widened(self.raw, ONE);
        if b.raw > 0 {
            limit(divided(n, b.raw as i128))
        } else if b.raw < 0 {
            limit(divided(-n, -(b.raw as i128)))
        } else if self.raw < 0 {
            limit(-(i64::MAX as i128))
        } else {
            limit(i64::MAX as i128)
        }
    }

    fn negated(self) -> (r: Self) {
        limit(-(self.raw as i128))
    }

    fn less(self, b: Self) -> (r: bool) {
        self.raw < b.raw
    }

    fn at_most(self, b: Self) -> (r: bool) {
        self.raw <= b.raw
    }

    fn same(self, b: Self) -> (r: bool) {
        self.raw == b.raw
    }

    fn tanh(self) -> (r: Self) {
        if self.raw >= 3 * ONE {
            limit(ONE as i128)
        } else if self.raw <= -3 * ONE {
            limit(-(ONE as i128))
        } else {
            let x: i128 = self.raw as i128;
            let p: i128 = widened(self.raw, self.raw);
            assert(0 <= p <= 9_000_000_000_000_000_000) by (nonlinear_arith)
                requires
                    p == x * x,
                    -3_000_000_000 <= x <= 3_000_000_000,
            ;
            let square: i128 = p / ONE as i128;
            let factor: i128 = 27 * ONE as i128 + square;
            assert(-108_000_000_000_000_000_000 <= x * factor <= 108_000_000_000_000_000_000)
                by (nonlinear_arith)
                requires
                    -3_000_000_000 <= x <= 3_000_000_000,
                    27_000_000_000 <= factor <= 36_000_000_000,
            ;
            limit(divided(x * factor, 27 * ONE as i128 + 9 * square))
        }
    }

    fn lowest() -> (r: Self) {
        limit(-(i64::MAX as i128))
    }

    fn milli(self) -> (r: i64) {
        if self.raw >= ONE {
            1000
        } else if self.raw <= -ONE {
            -1000
        } else if self.raw >= 0 {
            (self.raw + 500_000) / 1_000_000
        } else {
            -((500_000 - self.raw) / 1_000_000)
        }
    }
}

impl RootScore for Fixed {
    fn ln(self) -> (r: Self) {
        if self.raw < ONE {
            return limit(0);
        }
        let mut n: i64 = self.raw;
        let mut k: i64 = 0;
        while n >= 2 * ONE
            invariant
                ONE <= n,
                0 <= k <= self.raw - n,
                halvings(self.raw as int) == k + halvings(n as int),
                halved(self.raw as int) == halved(n as int),
            decreases n,
        {
            n = n / 2;
            k = k + 1;
        }
        assert(halvings(n as int) == 0 && halved(n as int) == n);
        proof {
            lemma_few_halvings(self.raw as int);
        }
        let sum: i64 = k * ONE + n - ONE;
        limit(divided(widened(sum, LN_TWO), ONE as i128))
    }

    fn sqrt(self) -> (r: Self) {
        if self.raw <= 0 {
            return limit(0);
        }
        let n: i128 = widened(self.raw, ONE);
        let mut lo: i128 = 0;
        let mut hi: i128 = 100_000_000_000_000;
        assert(lo * lo <= n && n < hi * hi);
        while hi - lo > 1
            invariant
                0 <= lo < hi <= 100_000_000_000_000,
                lo * lo <= n,
                n < hi * hi,
            decreases hi - lo,
        {
            let mid: i128 = lo + (hi - lo) / 2;
            assert(0 <= mid * mid <= 10_000_000_000_000_000_000_000_000_000) by (nonlinear_arith)
                requires
                    0 <= mid <= 100_000_000_000_000,
            ;
            if mid * mid <= n {
                lo = mid;
            } else {
                hi = mid;
            }
        }
        proof {
            assert(hi == lo + 1);
            lemma_root_unique(lo as int, n as int);
        }
        limit(lo)
    }
}

/// A number of the range is halved at most 34 times.
proof fn lemma_few_halvings(n: int)
    requires
        ONE <= n <= i64::MAX,
    ensures
        0 <= halvings(n) <= 34,
{
    vstd::arithmetic::power2::lemma2_to64();
    vstd::arithmetic::power2::lemma_pow2_unfold(34);
    vstd::arithmetic::power2::lemma_pow2_unfold(33);
    lemma_halvings_below(n, 34);
}

proof fn lemma_halvings_below(n: int, k: nat)
    requires
        n < ONE * vstd::arithmetic::power2::pow2(k),
    ensures
        0 <= halvings(n) <= k,
    decreases k,
{
    if k > 0 && n >= 2 * ONE {
        vstd::arithmetic::power2::lemma_pow2_unfold(k);
        lemma_halvings_below(n / 2, (k - 1) as nat);
    } else if k == 0 {
        vstd::arithmetic::power2::lemma2_to64();
    }
}

/// Fixed-point numbers are ordered as their billionths are.
pub proof fn law_fixed_is_measured()
    ensures
        measured(|x: Fixed| x.raw as real),
{
}

/// The approximation of the hyperbolic tangent is odd.
pub proof fn lemma_tanh_like_odd(x: int)
    ensures
        tanh_like(-x) == -tanh_like(x),
{
    assert((-x) * (-x) == x * x) by (nonlinear_arith);
    let square = x * x / ONE as int;
    let factor = 27 * ONE + square;
    assert((-x) * factor == -(x * factor)) by (nonlinear_arith);
    assert(x * x >= 0) by (nonlinear_arith);
}

/// It lies between -1 and 1.
pub proof fn lemma_tanh_like_bounded(x: int)
    ensures
        -ONE <= tanh_like(x) <= ONE,
{
    if x < 0 {
        lemma_tanh_like_odd(-x);
        lemma_tanh_like_small(-x);
    } else {
        lemma_tanh_like_small(x);
    }
}

/// The curve, times the scale, falls short of one by a cube and what rounding leaves.
proof fn lemma_cubic(s: int, x: int, q: int, e: int)
    requires
        q * s == x * x - e,
    ensures
        ({
            let y = 3 * s - x;
            s * ((s + 1) * (27 * s + 9 * q) - x * (27 * s + q)) == y * y * y - 9 * (s * e) + 27 * (s
                * s) + 9 * (x * x) - 9 * e + x * e
        }),
{
    let y = 3 * s - x;
    let t = q * s;
    let d = 27 * (s * s) + 9 * t + 27 * s + 9 * q - 27 * (x * s) - x * q;
    assert((s + 1) * (27 * s + 9 * q) == 27 * (s * s) + 9 * t + 27 * s + 9 * q) by (nonlinear_arith)
        requires
            t == q * s,
    ;
    assert(x * (27 * s + q) == 27 * (x * s) + x * q) by (nonlinear_arith);
    assert(s * d == 27 * (s * s * s) + 9 * (s * t) + 27 * (s * s) + 9 * t - 27 * (s * (x * s)) - x
        * t) by (nonlinear_arith)
        requires
            d == 27 * (s * s) + 9 * t + 27 * s + 9 * q - 27 * (x * s) - x * q,
            t == q * s,
    ;
    assert(s * t == s * (x * x) - s * e) by (nonlinear_arith)
        requires
            t == x * x - e,
    ;
    assert(x * t == x * (x * x) - x * e) by (nonlinear_arith)
        requires
            t == x * x - e,
    ;
    assert(y * y * y == 27 * (s * s * s) - 27 * (s * (x * s)) + 9 * (s * (x * x)) - x * (x * x))
        by (nonlinear_arith)
        requires
            y == 3 * s - x,
    ;
}

proof fn lemma_tanh_like_small(x: int)
    requires
        0 <= x,
    ensures
        0 <= tanh_like(x) <= ONE,
{
    if x < 3 * ONE {
        let s = ONE as int;
        let q = x * x / s;
        let e = x * x % s;
        assert(x * x >= 0) by (nonlinear_arith);
        assert(q * s == x * x - e);
        let d = 27 * s + 9 * q;
        let n = x * (27 * s + q);
        let y = 3 * s - x;
        lemma_cubic(s, x, q, e);
        assert(y * y * y >= 0) by (nonlinear_arith)
            requires
                y > 0,
        ;
        assert(s * e <= s * s && x * e >= 0 && 9 * e <= s * s) by (nonlinear_arith)
            requires
                s == 1_000_000_000,
                0 <= e < s,
                0 <= x,
        ;
        assert((s + 1) * d - n > 0) by (nonlinear_arith)
            requires
                s * ((s + 1) * d - n) > 0,
                s > 0,
        ;
        assert(n >= 0) by (nonlinear_arith)
            requires
                n == x * (27 * s + q),
                x >= 0,
                s > 0,
                q >= 0,
        ;
        assert(0 <= n / d <= s) by (nonlinear_arith)
            requires
                0 <= n < (s + 1) * d,
                d > 0,
        ;
    }
}

/// Sums, differences and negations are exact inside the range, and outside it the end of the range
/// on their side.
pub proof fn law_fixed_sums(a: Fixed, b: Fixed)
    ensures
        ({
            let sum = Fixed::sum_of(a, b).raw as int;
            let gap = Fixed::difference_of(a, b).raw as int;
            let end: int = 0x7fff_ffff_ffff_ffff;
            &&& -end <= a.raw + b.raw <= end ==> sum == a.raw + b.raw
            &&& a.raw + b.raw > end ==> sum == end
            &&& a.raw + b.raw < -end ==> sum == -end
            &&& -end <= a.raw - b.raw <= end ==> gap == a.raw - b.raw
            &&& a.raw - b.raw > end ==> gap == end
            &&& a.raw - b.raw < -end ==> gap == -end
            &&& a.raw >= -end ==> Fixed::negation_of(a).raw == -a.raw
            &&& Fixed::lowest_of().raw == -end
        }),
{
}

proof fn lemma_toward_zero(n: int, d: int)
    requires
        d > 0,
    ensures
        ({
            let r = toward_zero(n, d);
            &&& n >= 0 ==> r >= 0 && r * d <= n < r * d + d
            &&& n <= 0 ==> r <= 0 && r * d - d < n <= r * d
        }),
{
    let m = if n < 0 {
        -n
    } else {
        n
    };
    assert(m / d >= 0 && (m / d) * d <= m < (m / d) * d + d) by (nonlinear_arith)
        requires
            m >= 0,
            d > 0,
    ;
    let k = m / d;
    assert((-k) * d == -(k * d)) by (nonlinear_arith);
}

/// A product inside the range is off by less than a billionth, and never too far from zero.
pub proof fn law_fixed_products(a: Fixed, b: Fixed)
    requires
        -0x7fff_ffff_ffff_ffff <= (a.raw * b.raw) / 1_000_000_000 < 0x7fff_ffff_ffff_ffff,
    ensures
        ({
            let r = Fixed::product_of(a, b).raw as int;
            let exact = a.raw * b.raw;
            &&& exact >= 0 ==> r >= 0 && r * 1_000_000_000 <= exact < (r + 1) * 1_000_000_000
            &&& exact <= 0 ==> r <= 0 && (r - 1) * 1_000_000_000 < exact <= r * 1_000_000_000
        }),
{
    lemma_toward_zero(a.raw * b.raw, 1_000_000_000);
}

/// So is a quotient, and a ratio of whole numbers is the quotient of the numbers.
pub proof fn law_fixed_quotients(a: Fixed, b: Fixed, num: i64, den: i64)
    requires
        b.raw > 0,
        -0x7fff_ffff_ffff_ffff <= a.raw * 1_000_000_000 / (b.raw as int) < 0x7fff_ffff_ffff_ffff,
        den > 0,
        -0x7fff_ffff_ffff_ffff <= num * 1_000_000_000 / (den as int) < 0x7fff_ffff_ffff_ffff,
    ensures
        ({
            let r = Fixed::quotient_of(a, b).raw as int;
            let d = b.raw as int;
            &&& a.raw >= 0 ==> r >= 0 && r * d <= a.raw * 1_000_000_000 < r * d + d
            &&& a.raw <= 0 ==> r <= 0 && r * d - d < a.raw * 1_000_000_000 <= r * d
        }),
        ({
            let r = Fixed::ratio_of(num, den).raw as int;
            let d = den as int;
            &&& num >= 0 ==> r >= 0 && r * d <= num * 1_000_000_000 < r * d + d
            &&& num <= 0 ==> r <= 0 && r * d - d < num * 1_000_000_000 <= r * d
        }),
{
    lemma_inside(a.raw * 1_000_000_000, b.raw as int);
    lemma_inside(num * 1_000_000_000, den as int);
}

proof fn lemma_inside(n: int, d: int)
    requires
        d > 0,
        -0x7fff_ffff_ffff_ffff <= n / d < 0x7fff_ffff_ffff_ffff,
    ensures
        limited(toward_zero(n, d)).raw == toward_zero(n, d),
        ({
            let r = toward_zero(n, d);
            &&& n >= 0 ==> r >= 0 && r * d <= n < r * d + d
            &&& n <= 0 ==> r <= 0 && r * d - d < n <= r * d
        }),
{
    lemma_toward_zero(n, d);
    let r = toward_zero(n, d);
    let q = n / d;
    assert(q * d <= n < q * d + d) by (nonlinear_arith)
        requires
            d > 0,
            q == n / d,
    ;
    if n < 0 {
        assert(r >= q) by (nonlinear_arith)
            requires
                d > 0,
                q * d <= n,
                n <= r * d,
        ;
    }
}

/// Thousandths are the nearest ones, a half counts away from zero, and they stop at one.
pub proof fn law_fixed_thousandths(a: Fixed)
    ensures
        ({
            let k = Fixed::milli_of(a) as int;
            &&& a.raw >= 1_000_000_000 ==> k == 1000
            &&& a.raw <= -1_000_000_000 ==> k == -1000
            &&& 0 <= a.raw < 1_000_000_000 ==> -500_000 <= 1_000_000 * k - 500_000 <= a.raw
                < 1_000_000 * k + 500_000
            &&& -1_000_000_000 < a.raw <= 0 ==> 1_000_000 * k - 500_000 < a.raw <= 1_000_000 * k
                + 500_000 <= 500_000
        }),
{
}

proof fn lemma_root_exists(n: int)
    requires
        n >= 0,
    ensures
        is_root(root_of(n), n),
    decreases n,
{
    if n == 0 {
        assert(is_root(0, 0));
    } else {
        lemma_root_exists(n - 1);
        let r = root_of(n - 1);
        if (r + 1) * (r + 1) <= n {
            assert(n < (r + 2) * (r + 2)) by (nonlinear_arith)
                requires
                    r >= 0,
                    n - 1 < (r + 1) * (r + 1),
            ;
            assert(is_root(r + 1, n));
        } else {
            assert(is_root(r, n));
        }
    }
}

/// The square root of a positive number is exact to the last billionth; of others it is zero.
pub proof fn law_fixed_roots(a: Fixed)
    ensures
        ({
            let r = Fixed::sqrt_of(a).raw as int;
            &&& a.raw <= 0 ==> r == 0
            &&& a.raw > 0 ==> r >= 0 && r * r <= a.raw * 1_000_000_000 < (r + 1) * (r + 1)
        }),
{
    if a.raw > 0 {
        let n = a.raw * 1_000_000_000;
        lemma_root_exists(n);
        let r = root_of(n);
        assert(r <= 0x7fff_ffff_ffff_ffff) by (nonlinear_arith)
            requires
                r >= 0,
                r * r <= n,
                n <= 0x7fff_ffff_ffff_ffff * 1_000_000_000,
        ;
    }
}

/// The logarithm of one is zero, it rises in a straight line to two, doubling a number from one on
/// adds the logarithm of two, and below one it is zero.
pub proof fn law_fixed_logarithms(a: Fixed, b: Fixed)
    requires
        b.raw == 2 * a.raw,
    ensures
        a.raw <= 1_000_000_000 ==> Fixed::ln_of(a).raw == 0,
        1_000_000_000 <= a.raw <= 2_000_000_000 ==> Fixed::ln_of(a).raw == (a.raw - 1_000_000_000)
            * 693_147_181 / 1_000_000_000,
        a.raw >= 1_000_000_000 ==> Fixed::ln_of(b).raw == Fixed::ln_of(a).raw + 693_147_181,
{
    if a.raw >= ONE {
        lemma_few_halvings(a.raw as int);
        lemma_few_halvings(b.raw as int);
        lemma_halved_small(a.raw as int);
        lemma_halved_small(b.raw as int);
        assert(b.raw as int / 2 == a.raw);
        reveal_with_fuel(halvings, 3);
        reveal_with_fuel(halved, 3);
    }
}

proof fn lemma_halved_small(n: int)
    requires
        n >= ONE,
    ensures
        ONE <= halved(n) < 2 * ONE,
    decreases n,
{
    if n >= 2 * ONE {
        lemma_halved_small(n / 2);
    }
}

/// The curve for the hyperbolic tangent is odd, has the sign of its argument, is never farther from
/// zero than that nor than one, is one from three on, and is at least a third of its argument up to
/// there, less what rounding takes.
pub proof fn law_fixed_tangents(a: Fixed)
    requires
        a.raw > -0x7fff_ffff_ffff_ffff,
    ensures
        ({
            let x = a.raw as int;
            let t = Fixed::tanh_of(a).raw as int;
            &&& Fixed::tanh_of(Fixed { raw: (-a.raw) as i64 }).raw == -t
            &&& -1_000_000_000 <= t <= 1_000_000_000
            &&& x >= 3_000_000_000 ==> t == 1_000_000_000
            &&& x >= 0 ==> 0 <= t <= x
            &&& 0 <= x <= 3_000_000_000 ==> x <= 3 * t + 3
        }),
{
    let x = a.raw as int;
    lemma_tanh_like_odd(x);
    lemma_tanh_like_bounded(x);
    if 0 <= x < 3_000_000_000 {
        let s = ONE as int;
        assert(0 <= x * x <= 9_000_000_000 * s) by (nonlinear_arith)
            requires
                0 <= x < 3_000_000_000,
                s == 1_000_000_000,
        ;
        let q = x * x / s;
        let n = x * (27 * s + q);
        let d = 27 * s + 9 * q;
        assert(0 <= q <= 9 * s);
        assert(0 <= n <= x * d && x * d <= 3 * n) by (nonlinear_arith)
            requires
                n == x * (27 * s + q),
                d == 27 * s + 9 * q,
                0 <= x,
                0 <= q <= 9 * s,
        ;
        lemma_toward_zero(n, d);
        let t = toward_zero(n, d);
        assert(t <= x) by (nonlinear_arith)
            requires
                t * d <= n <= x * d,
                d > 0,
        ;
        assert(x <= 3 * t + 3) by (nonlinear_arith)
            requires
                x * d <= 3 * n,
                n < t * d + d,
                d > 0,
        ;
    }
}

} // verus!
