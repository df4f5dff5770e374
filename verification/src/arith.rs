//! The arithmetic of evaluations.
//!
//! Evaluation and search are written once, for any type of numbers. What they need of it is
//! in two traits. `Arith` names the operations as mathematical functions, and the contracts
//! speak of these. `Score` gives each operation a body; its contract says only that the body
//! computes the named function. Nothing else is taken for granted: no law of arithmetic, no
//! order, not even that a number equals itself. What is proved of the search therefore holds
//! for numbers that round and for ones that saturate.
//!
//! Some laws of the search hold only where nothing is rounded. They are stated for every type of
//! numbers that is `faithful`: each of its numbers stands for a real number, and its operations do
//! with them what the operations on the real numbers do. `Exact`, the real numbers themselves, are
//! one. `Fixed`, in a module of its own, are fixed-point numbers, which round.
use vstd::prelude::*;

verus! {

/// The operations on evaluations, as functions.
pub trait Arith: Sized {
    /// The number `num / den`.
    spec fn ratio_of(num: i64, den: i64) -> Self;

    spec fn sum_of(a: Self, b: Self) -> Self;

    spec fn difference_of(a: Self, b: Self) -> Self;

    spec fn product_of(a: Self, b: Self) -> Self;

    spec fn quotient_of(a: Self, b: Self) -> Self;

    spec fn negation_of(a: Self) -> Self;

    spec fn is_less(a: Self, b: Self) -> bool;

    spec fn is_at_most(a: Self, b: Self) -> bool;

    spec fn is_same(a: Self, b: Self) -> bool;

    /// The hyperbolic tangent, or what stands for it.
    spec fn tanh_of(a: Self) -> Self;

    /// A number that every evaluation exceeds.
    spec fn lowest_of() -> Self;

    /// Thousandths, rounded to a whole number, of the number limited to `[-1, 1]`.
    spec fn milli_of(a: Self) -> i64;
}

/// The operations on evaluations, as code.
pub trait Score: Arith + Copy {
    fn ratio(num: i64, den: i64) -> (r: Self)
        requires
            den > 0,
        ensures
            r == Self::ratio_of(num, den),
    ;

    fn plus(self, b: Self) -> (r: Self)
        ensures
            r == Self::sum_of(self, b),
    ;

    fn minus(self, b: Self) -> (r: Self)
        ensures
            r == Self::difference_of(self, b),
    ;

    fn times(self, b: Self) -> (r: Self)
        ensures
            r == Self::product_of(self, b),
    ;

    fn over(self, b: Self) -> (r: Self)
        ensures
            r == Self::quotient_of(self, b),
    ;

    fn negated(self) -> (r: Self)
        ensures
            r == Self::negation_of(self),
    ;

    fn less(self, b: Self) -> (r: bool)
        ensures
            r == Self::is_less(self, b),
    ;

    fn at_most(self, b: Self) -> (r: bool)
        ensures
            r == Self::is_at_most(self, b),
    ;

    fn same(self, b: Self) -> (r: bool)
        ensures
            r == Self::is_same(self, b),
    ;

    fn tanh(self) -> (r: Self)
        ensures
            r == Self::tanh_of(self),
    ;

    fn lowest() -> (r: Self)
        ensures
            r == Self::lowest_of(),
    ;

    fn milli(self) -> (r: i64)
        ensures
            r == Self::milli_of(self),
            -1000 <= r <= 1000,
    ;
}

/// The operations that tree search needs besides, as functions.
pub trait RootArith: Arith {
    /// The natural logarithm, or what stands for it.
    spec fn ln_of(a: Self) -> Self;

    /// The square root, or what stands for it.
    spec fn sqrt_of(a: Self) -> Self;
}

/// The operations that tree search needs besides, as code.
pub trait RootScore: Score + RootArith {
    fn ln(self) -> (r: Self)
        ensures
            r == Self::ln_of(self),
    ;

    fn sqrt(self) -> (r: Self)
        ensures
            r == Self::sqrt_of(self),
    ;
}

/// A whole number.
pub open spec fn whole<A: Arith>(n: int) -> A {
    A::ratio_of(n as i64, 1)
}

/// The numbers of a type are ordered as the real numbers `val` that they stand for, and so are
/// their thousandths, which lie between -1000 and 1000. Nothing is said of the operations.
pub open spec fn measured<A: Arith>(val: spec_fn(A) -> real) -> bool {
    &&& forall|a: A, b: A| #[trigger] A::is_less(a, b) == (val(a) < val(b))
    &&& forall|a: A, b: A| #[trigger] A::is_at_most(a, b) == (val(a) <= val(b))
    &&& forall|a: A, b: A| #[trigger] A::is_same(a, b) == (val(a) == val(b))
    &&& forall|a: A| -1000 <= #[trigger] A::milli_of(a) <= 1000
    &&& forall|a: A, b: A|
        val(a) <= val(b) ==> #[trigger] A::milli_of(a) <= #[trigger] A::milli_of(b)
}

/// A number limited to `[-1, 1]`.
pub open spec fn clamped(x: real) -> real {
    if x < -1real {
        -1real
    } else if x > 1real {
        1real
    } else {
        x
    }
}

/// The numbers of a type stand for the real numbers `val`, and its operations are exact: sums,
/// differences, products, quotients by other than zero, negation and comparison are those of the
/// real numbers, thousandths are rounded to the nearest whole number, and the hyperbolic tangent is
/// at least an odd function into (-1, 1).
pub open spec fn faithful<A: Arith>(val: spec_fn(A) -> real) -> bool {
    &&& forall|n: i64, d: i64|
        d > 0 ==> val(#[trigger] A::ratio_of(n, d)) == (n as real) / (d as real)
    &&& forall|a: A, b: A| val(#[trigger] A::sum_of(a, b)) == val(a) + val(b)
    &&& forall|a: A, b: A| val(#[trigger] A::difference_of(a, b)) == val(a) - val(b)
    &&& forall|a: A, b: A| val(#[trigger] A::product_of(a, b)) == val(a) * val(b)
    &&& forall|a: A, b: A|
        val(b) != 0real ==> val(#[trigger] A::quotient_of(a, b)) == val(a) / val(b)
    &&& forall|a: A| val(#[trigger] A::negation_of(a)) == -val(a)
    &&& measured(val)
    &&& forall|a: A|
        -1real <= 2real * ((#[trigger] A::milli_of(a)) as real - 1000real * clamped(val(a)))
            <= 1real
    &&& forall|a: A| -1real < val(#[trigger] A::tanh_of(a)) < 1real
    &&& forall|a: A, b: A|
        val(b) == -val(a) ==> val(#[trigger] A::tanh_of(b)) == -val(#[trigger] A::tanh_of(a))
    &&& val(A::lowest_of()) < -2real
}

/// The real numbers.
pub struct Exact {
    pub v: real,
}

/// The hyperbolic tangent of larger numbers is larger.
pub open spec fn rising<A: Arith>(val: spec_fn(A) -> real) -> bool {
    forall|a: A, b: A|
        val(a) < val(b) ==> val(#[trigger] A::tanh_of(a)) < val(#[trigger] A::tanh_of(b))
}

/// An odd and rising function with values strictly between -1 and 1, as the hyperbolic tangent is.
pub open spec fn squashes(f: spec_fn(real) -> real) -> bool {
    &&& forall|x: real| #![trigger f(x)] -1real < f(x) < 1real && f(-x) == -f(x)
    &&& forall|x: real, y: real| x < y ==> #[trigger] f(x) < #[trigger] f(y)
}

/// Some such function; nothing else is known of it.
pub open spec fn squash() -> spec_fn(real) -> real {
    choose|f: spec_fn(real) -> real| squashes(f)
}

pub proof fn lemma_squash(x: real)
    ensures
        -1real < squash()(x) < 1real,
        squash()(-x) == -squash()(x),
        squashes(squash()),
{
    let f = |x: real|
        if x < 0real {
            x / (1real - x)
        } else {
            x / (1real + x)
        };
    assert forall|x: real| #![trigger f(x)] -1real < f(x) < 1real && f(-x) == -f(x) by {
        if x < 0real {
            assert(-1real < x / (1real - x) < 1real) by (nonlinear_arith)
                requires
                    x < 0real,
            ;
            assert((-x) / (1real + (-x)) == -(x / (1real - x))) by (nonlinear_arith)
                requires
                    x < 0real,
            ;
        } else {
            assert(-1real < x / (1real + x) < 1real) by (nonlinear_arith)
                requires
                    x >= 0real,
            ;
            assert((-x) / (1real - (-x)) == -(x / (1real + x))) by (nonlinear_arith)
                requires
                    x >= 0real,
            ;
        }
    }
    assert forall|x: real, y: real| x < y implies #[trigger] f(x) < #[trigger] f(y) by {
        if x < 0real && y >= 0real {
            assert(x / (1real - x) < 0real) by (nonlinear_arith)
                requires
                    x < 0real,
            ;
            assert(y / (1real + y) >= 0real) by (nonlinear_arith)
                requires
                    y >= 0real,
            ;
        } else if x < 0real {
            lemma_quotients(-y, -x);
            assert(x / (1real - x) == -((-x) / (1real + (-x)))) by (nonlinear_arith)
                requires
                    x < 0real,
            ;
            assert(y / (1real - y) == -((-y) / (1real + (-y)))) by (nonlinear_arith)
                requires
                    y < 0real,
            ;
        } else {
            lemma_quotients(x, y);
        }
    }
    assert(squashes(f));
    assert(squashes(squash()));
}

proof fn lemma_quotients(x: real, y: real)
    requires
        0real <= x < y,
    ensures
        x / (1real + x) < y / (1real + y),
{
    let a = x / (1real + x);
    let b = y / (1real + y);
    assert(a * (1real + x) == x) by (nonlinear_arith)
        requires
            a == x / (1real + x),
            x >= 0real,
    ;
    assert(b * (1real + y) == y) by (nonlinear_arith)
        requires
            b == y / (1real + y),
            y >= 0real,
    ;
    assert(a < b) by (nonlinear_arith)
        requires
            a * (1real + x) == x,
            b * (1real + y) == y,
            0real <= x < y,
    ;
}

impl Arith for Exact {
    open spec fn ratio_of(num: i64, den: i64) -> Self {
        Exact { v: (num as real) / (den as real) }
    }

    open spec fn sum_of(a: Self, b: Self) -> Self {
        Exact { v: a.v + b.v }
    }

    open spec fn difference_of(a: Self, b: Self) -> Self {
        Exact { v: a.v - b.v }
    }

    open spec fn product_of(a: Self, b: Self) -> Self {
        Exact { v: a.v * b.v }
    }

    open spec fn quotient_of(a: Self, b: Self) -> Self {
        Exact { v: a.v / b.v }
    }

    open spec fn negation_of(a: Self) -> Self {
        Exact { v: -a.v }
    }

    open spec fn is_less(a: Self, b: Self) -> bool {
        a.v < b.v
    }

    open spec fn is_at_most(a: Self, b: Self) -> bool {
        a.v <= b.v
    }

    open spec fn is_same(a: Self, b: Self) -> bool {
        a.v == b.v
    }

    open spec fn tanh_of(a: Self) -> Self {
        Exact { v: squash()(a.v) }
    }

    /// Evaluations lie in `[-1, 1]` and windows in `[-2, 2]`.
    open spec fn lowest_of() -> Self {
        Exact { v: -3real }
    }

    open spec fn milli_of(a: Self) -> i64 {
        let scaled = 1000real * clamped(a.v);
        if scaled >= 0real {
            (scaled + 1real / 2real).floor() as i64
        } else {
            -((-scaled + 1real / 2real).floor()) as i64
        }
    }
}

/// On the real numbers the hyperbolic tangent rises.
pub proof fn law_reals_rise()
    ensures
        rising(|x: Exact| x.v),
{
    lemma_squash(0real);
    assert forall|a: Exact, b: Exact| a.v < b.v implies (#[trigger] Exact::tanh_of(a)).v < (
    #[trigger] Exact::tanh_of(b)).v by {
        assert(squash()(a.v) < squash()(b.v));
    }
}

/// The real numbers are faithful.
pub proof fn law_reals_are_faithful()
    ensures
        faithful(|x: Exact| x.v),
{
    assert forall|x: real| -1real < #[trigger] squash()(x) < 1real by {
        lemma_squash(x);
    }
    assert forall|a: Exact, b: Exact| b.v == -a.v implies (#[trigger] Exact::tanh_of(b)).v == -(
    #[trigger] Exact::tanh_of(a)).v by {
        lemma_squash(a.v);
    }
}

} // verus!
