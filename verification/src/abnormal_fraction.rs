//! The extended numeric domain: exact rationals together with positive
//! infinity, negative infinity and a not-a-number value.
//!
//! Arithmetic is total: every pairing of variants has a defined result, laid
//! out by the spec-level tables `add_v`, `sub_v`, `mul_v`, `div_v` and
//! `cmp_v`, which follow the IEEE-754-style extended-real conventions
//! (`(+inf) + (-inf)` is NaN, a zero divisor gives NaN, NaN propagates).
//! Finite results are pinned to the exact rational result of the operation,
//! up to `rat_eq` (same rational value).

use vstd::prelude::*;

verus! {

use crate::rational::{
    BigRat, Comparison, Rat, big_add, big_ceil, big_cmp, big_div, big_floor, big_mul, big_sub,
    lemma_rat_add_cong, lemma_rat_mul_cong, rat_abs, rat_add, rat_div, rat_eq, rat_lt, rat_mul,
    rat_neg, rat_one, rat_sub, rat_wf, rat_zero,
};

/// The value of an extended number: a rational, one of the two infinities,
/// or not-a-number.
pub ghost enum ExtRat {
    Fin(Rat),
    Inf,
    NegInf,
    NaN,
}

pub open spec fn ext_wf(a: ExtRat) -> bool {
    match a {
        ExtRat::Fin(x) => rat_wf(x),
        _ => true,
    }
}

/// `a` and `b` denote the same extended value: the same variant, and for
/// finite values the same rational.
pub open spec fn ext_val_eq(a: ExtRat, b: ExtRat) -> bool {
    match (a, b) {
        (ExtRat::Fin(x), ExtRat::Fin(y)) => rat_eq(x, y),
        (ExtRat::Inf, ExtRat::Inf) => true,
        (ExtRat::NegInf, ExtRat::NegInf) => true,
        (ExtRat::NaN, ExtRat::NaN) => true,
        _ => false,
    }
}

/// The addition table.
pub open spec fn add_v(a: ExtRat, b: ExtRat) -> ExtRat {
    match (a, b) {
        (ExtRat::NaN, _) => ExtRat::NaN,
        (_, ExtRat::NaN) => ExtRat::NaN,
        (ExtRat::Fin(x), ExtRat::Fin(y)) => ExtRat::Fin(rat_add(x, y)),
        (ExtRat::Fin(_), ExtRat::Inf) => ExtRat::Inf,
        (ExtRat::Fin(_), ExtRat::NegInf) => ExtRat::NegInf,
        (ExtRat::Inf, ExtRat::Fin(_)) => ExtRat::Inf,
        (ExtRat::Inf, ExtRat::Inf) => ExtRat::Inf,
        (ExtRat::Inf, ExtRat::NegInf) => ExtRat::NaN,
        (ExtRat::NegInf, ExtRat::Fin(_)) => ExtRat::NegInf,
        (ExtRat::NegInf, ExtRat::Inf) => ExtRat::NaN,
        (ExtRat::NegInf, ExtRat::NegInf) => ExtRat::NegInf,
    }
}

/// The subtraction table: as addition, with the sign of the right operand's
/// infinities flipped; an infinity minus the same infinity is NaN.
pub open spec fn sub_v(a: ExtRat, b: ExtRat) -> ExtRat {
    match (a, b) {
        (ExtRat::NaN, _) => ExtRat::NaN,
        (_, ExtRat::NaN) => ExtRat::NaN,
        (ExtRat::Fin(x), ExtRat::Fin(y)) => ExtRat::Fin(rat_sub(x, y)),
        (ExtRat::Fin(_), ExtRat::Inf) => ExtRat::NegInf,
        (ExtRat::Fin(_), ExtRat::NegInf) => ExtRat::Inf,
        (ExtRat::Inf, ExtRat::Fin(_)) => ExtRat::Inf,
        (ExtRat::Inf, ExtRat::Inf) => ExtRat::NaN,
        (ExtRat::Inf, ExtRat::NegInf) => ExtRat::Inf,
        (ExtRat::NegInf, ExtRat::Fin(_)) => ExtRat::NegInf,
        (ExtRat::NegInf, ExtRat::Inf) => ExtRat::NegInf,
        (ExtRat::NegInf, ExtRat::NegInf) => ExtRat::NaN,
    }
}

/// The multiplication table: a finite factor directs an infinity by its
/// sign, and a zero finite factor times an infinity is NaN.
pub open spec fn mul_v(a: ExtRat, b: ExtRat) -> ExtRat {
    match (a, b) {
        (ExtRat::NaN, _) => ExtRat::NaN,
        (_, ExtRat::NaN) => ExtRat::NaN,
        (ExtRat::Fin(x), ExtRat::Fin(y)) => ExtRat::Fin(rat_mul(x, y)),
        (ExtRat::Fin(x), ExtRat::Inf) => if x.n > 0 {
            ExtRat::Inf
        } else if x.n < 0 {
            ExtRat::NegInf
        } else {
            ExtRat::NaN
        },
        (ExtRat::Fin(x), ExtRat::NegInf) => if x.n > 0 {
            ExtRat::NegInf
        } else if x.n < 0 {
            ExtRat::Inf
        } else {
            ExtRat::NaN
        },
        (ExtRat::Inf, ExtRat::Fin(y)) => if y.n > 0 {
            ExtRat::Inf
        } else if y.n < 0 {
            ExtRat::NegInf
        } else {
            ExtRat::NaN
        },
        (ExtRat::Inf, ExtRat::Inf) => ExtRat::Inf,
        (ExtRat::Inf, ExtRat::NegInf) => ExtRat::NegInf,
        (ExtRat::NegInf, ExtRat::Fin(y)) => if y.n > 0 {
            ExtRat::NegInf
        } else if y.n < 0 {
            ExtRat::Inf
        } else {
            ExtRat::NaN
        },
        (ExtRat::NegInf, ExtRat::Inf) => ExtRat::NegInf,
        (ExtRat::NegInf, ExtRat::NegInf) => ExtRat::Inf,
    }
}

/// The division table: a zero divisor gives NaN, a finite value over an
/// infinity is exact zero, and an infinity over an infinity is NaN.
pub open spec fn div_v(a: ExtRat, b: ExtRat) -> ExtRat {
    match (a, b) {
        (ExtRat::NaN, _) => ExtRat::NaN,
        (_, ExtRat::NaN) => ExtRat::NaN,
        (ExtRat::Fin(x), ExtRat::Fin(y)) => if y.n != 0 {
            ExtRat::Fin(rat_div(x, y))
        } else {
            ExtRat::NaN
        },
        (ExtRat::Fin(_), ExtRat::Inf) => ExtRat::Fin(rat_zero()),
        (ExtRat::Fin(_), ExtRat::NegInf) => ExtRat::Fin(rat_zero()),
        (ExtRat::Inf, ExtRat::Fin(y)) => if y.n > 0 {
            ExtRat::Inf
        } else if y.n < 0 {
            ExtRat::NegInf
        } else {
            ExtRat::NaN
        },
        (ExtRat::Inf, ExtRat::Inf) => ExtRat::NaN,
        (ExtRat::Inf, ExtRat::NegInf) => ExtRat::NaN,
        (ExtRat::NegInf, ExtRat::Fin(y)) => if y.n > 0 {
            ExtRat::NegInf
        } else if y.n < 0 {
            ExtRat::Inf
        } else {
            ExtRat::NaN
        },
        (ExtRat::NegInf, ExtRat::Inf) => ExtRat::NaN,
        (ExtRat::NegInf, ExtRat::NegInf) => ExtRat::NaN,
    }
}

pub open spec fn neg_v(a: ExtRat) -> ExtRat {
    match a {
        ExtRat::Fin(x) => ExtRat::Fin(rat_neg(x)),
        ExtRat::Inf => ExtRat::NegInf,
        ExtRat::NegInf => ExtRat::Inf,
        ExtRat::NaN => ExtRat::NaN,
    }
}

/// Absolute value: both infinities map to positive infinity, NaN stays NaN.
pub open spec fn abs_v(a: ExtRat) -> ExtRat {
    match a {
        ExtRat::Fin(x) => ExtRat::Fin(rat_abs(x)),
        ExtRat::Inf => ExtRat::Inf,
        ExtRat::NegInf => ExtRat::Inf,
        ExtRat::NaN => ExtRat::NaN,
    }
}

/// The comparison table. NaN is incomparable with everything, and an
/// infinity is incomparable with the same infinity: `Inf` against `Inf`
/// (and `NegInf` against `NegInf`) yields `None`, not "equal". This mirrors
/// IEEE-style NaN behaviour but diverges from the usual extended-real
/// convention, where equal infinities compare equal; it is kept as the
/// domain's deliberate convention.
pub open spec fn cmp_v(a: ExtRat, b: ExtRat) -> Option<Comparison> {
    match (a, b) {
        (ExtRat::NaN, _) => None,
        (_, ExtRat::NaN) => None,
        (ExtRat::Fin(x), ExtRat::Fin(y)) => if rat_lt(x, y) {
            Some(Comparison::Less)
        } else if rat_eq(x, y) {
            Some(Comparison::Equal)
        } else {
            Some(Comparison::Greater)
        },
        (ExtRat::Fin(_), ExtRat::Inf) => Some(Comparison::Less),
        (ExtRat::Fin(_), ExtRat::NegInf) => Some(Comparison::Greater),
        (ExtRat::Inf, ExtRat::Fin(_)) => Some(Comparison::Greater),
        (ExtRat::Inf, ExtRat::Inf) => None,
        (ExtRat::Inf, ExtRat::NegInf) => Some(Comparison::Greater),
        (ExtRat::NegInf, ExtRat::Fin(_)) => Some(Comparison::Less),
        (ExtRat::NegInf, ExtRat::Inf) => Some(Comparison::Less),
        (ExtRat::NegInf, ExtRat::NegInf) => None,
    }
}

/// `r` is the floor of `a`: for a finite value, the greatest integer not
/// above it; infinities and NaN are their own floor.
pub open spec fn is_floor_v(r: ExtRat, a: ExtRat) -> bool {
    match (a, r) {
        (ExtRat::Fin(x), ExtRat::Fin(m)) => m.d == 1 && m.n * x.d <= x.n < (m.n + 1) * x.d,
        (ExtRat::Inf, ExtRat::Inf) => true,
        (ExtRat::NegInf, ExtRat::NegInf) => true,
        (ExtRat::NaN, ExtRat::NaN) => true,
        _ => false,
    }
}

/// `r` is the ceiling of `a`: for a finite value, the least integer not
/// below it; infinities and NaN are their own ceiling.
pub open spec fn is_ceil_v(r: ExtRat, a: ExtRat) -> bool {
    match (a, r) {
        (ExtRat::Fin(x), ExtRat::Fin(m)) => m.d == 1 && (m.n - 1) * x.d < x.n <= m.n * x.d,
        (ExtRat::Inf, ExtRat::Inf) => true,
        (ExtRat::NegInf, ExtRat::NegInf) => true,
        (ExtRat::NaN, ExtRat::NaN) => true,
        _ => false,
    }
}

/// Left fold of the addition table over a sequence of values, starting from
/// exact zero.
pub open spec fn sum_v(s: Seq<ExtRat>) -> ExtRat
    decreases s.len(),
{
    if s.len() == 0 {
        ExtRat::Fin(rat_zero())
    } else {
        add_v(sum_v(s.drop_last()), s.last())
    }
}

/// `a` is the finite value zero.
pub open spec fn is_zero_v(a: ExtRat) -> bool {
    a matches ExtRat::Fin(x) && x.n == 0
}

/// The squares of a sequence of values, by the multiplication table.
pub open spec fn squares_v(s: Seq<ExtRat>) -> Seq<ExtRat> {
    s.map_values(|x: ExtRat| mul_v(x, x))
}

/// The multiplication table preserves well-formedness.
pub proof fn lemma_mul_v_wf(a: ExtRat, b: ExtRat)
    requires
        ext_wf(a),
        ext_wf(b),
    ensures
        ext_wf(mul_v(a, b)),
{
    if a is Fin && b is Fin {
        let x = a->Fin_0;
        let y = b->Fin_0;
        assert(rat_mul(x, y).d > 0) by (nonlinear_arith)
            requires
                x.d > 0,
                y.d > 0,
        ;
    }
}

/// Raised when a value cannot be extracted as an exact rational.
#[derive(Clone, Copy, Debug, PartialEq, Eq, Structural)]
pub enum ExtractError {
    Unavailable,
}

/// An extended number: an exact rational, positive infinity, negative
/// infinity, or not-a-number.
#[derive(Debug, PartialEq, Eq)]
pub enum AbnormalFraction {
    Normal(BigRat),
    Infinite,
    NegInfinite,
    NaN,
}

impl View for AbnormalFraction {
    type V = ExtRat;

    open spec fn view(&self) -> ExtRat {
        match self {
            AbnormalFraction::Normal(f) => ExtRat::Fin(f@),
            AbnormalFraction::Infinite => ExtRat::Inf,
            AbnormalFraction::NegInfinite => ExtRat::NegInf,
            AbnormalFraction::NaN => ExtRat::NaN,
        }
    }
}

impl Clone for AbnormalFraction {
    fn clone(&self) -> (r: Self)
        ensures
            r@ == self@,
            self.wf() ==> r.wf(),
    {
        match self {
            AbnormalFraction::Normal(f) => AbnormalFraction::Normal(f.clone()),
            AbnormalFraction::Infinite => AbnormalFraction::Infinite,
            AbnormalFraction::NegInfinite => AbnormalFraction::NegInfinite,
            AbnormalFraction::NaN => AbnormalFraction::NaN,
        }
    }
}

impl AbnormalFraction {
    pub open spec fn wf(&self) -> bool {
        match self {
            AbnormalFraction::Normal(f) => f.wf(),
            _ => true,
        }
    }

    pub fn infinity() -> (r: Self)
        ensures
            r.wf(),
            r@ == ExtRat::Inf,
    {
        Self::Infinite
    }

    pub fn neg_infinity() -> (r: Self)
        ensures
            r.wf(),
            r@ == ExtRat::NegInf,
    {
        Self::NegInfinite
    }

    pub fn zero() -> (r: Self)
        ensures
            r.wf(),
            r@ == ExtRat::Fin(rat_zero()),
    {
        Self::Normal(BigRat::zero())
    }

    pub fn one() -> (r: Self)
        ensures
            r.wf(),
            r@ == ExtRat::Fin(rat_one()),
    {
        Self::Normal(BigRat::one())
    }

    /// The finite value `value / 1`.
    pub fn from_usize(value: usize) -> (r: Self)
        ensures
            r.wf(),
            r@ == ExtRat::Fin(Rat { n: value as int, d: 1 }),
    {
        Self::Normal(BigRat::from_pair(value, 1))
    }

    /// The finite value `n / d`.
    pub fn from_pair(n: usize, d: usize) -> (r: Self)
        requires
            d > 0,
        ensures
            r.wf(),
            r@ == ExtRat::Fin(Rat { n: n as int, d: d as int }),
    {
        Self::Normal(BigRat::from_pair(n, d))
    }

    /// Returns `true` if this number is neither infinite nor NaN.
    pub fn is_finite(&self) -> (r: bool)
        ensures
            r <==> self@ is Fin,
    {
        match self {
            AbnormalFraction::Normal(_) => true,
            _ => false,
        }
    }

    /// Returns `true` if this value is positive or negative infinity.
    pub fn is_infinite(&self) -> (r: bool)
        ensures
            r <==> (self@ is Inf || self@ is NegInf),
    {
        match self {
            AbnormalFraction::Infinite | AbnormalFraction::NegInfinite => true,
            _ => false,
        }
    }

    pub fn is_neg_infinite(&self) -> (r: bool)
        ensures
            r <==> self@ is NegInf,
    {
        match self {
            AbnormalFraction::NegInfinite => true,
            _ => false,
        }
    }

    pub(crate) fn both_normal(&self, rhs: &Self) -> (r: bool)
        ensures
            r <==> (self@ is Fin && rhs@ is Fin),
    {
        match (self, rhs) {
            (AbnormalFraction::Normal(_), AbnormalFraction::Normal(_)) => true,
            _ => false,
        }
    }

    pub fn is_zero(&self) -> (r: bool)
        requires
            self.wf(),
        ensures
            r <==> (self@ matches ExtRat::Fin(x) && x.n == 0),
    {
        match self {
            AbnormalFraction::Normal(f) => f.is_zero(),
            _ => false,
        }
    }

    pub fn is_one(&self) -> (r: bool)
        requires
            self.wf(),
        ensures
            r <==> (self@ matches ExtRat::Fin(x) && rat_eq(x, rat_one())),
    {
        match self {
            AbnormalFraction::Normal(f) => {
                let one = BigRat::one();
                matches!(big_cmp(f, &one), Comparison::Equal)
            },
            _ => false,
        }
    }

    /// Every representable value is exact: finite values are exact
    /// rationals, and the infinities and NaN are exact by convention.
    pub fn is_exact(&self) -> (r: bool)
        ensures
            r,
    {
        true
    }

    /// The exact rational behind a finite value; infinities and NaN have
    /// none, and extraction reports that it is unavailable.
    pub fn extract_exact(&self) -> (r: Result<&BigRat, ExtractError>)
        ensures
            match r {
                Ok(f) => self@ == ExtRat::Fin(f@),
                Err(e) => !(self@ is Fin) && e == ExtractError::Unavailable,
            },
    {
        match self {
            AbnormalFraction::Normal(f) => Ok(f),
            _ => Err(ExtractError::Unavailable),
        }
    }

    /// As `extract_exact`, but returns an owned rational.
    pub fn to_exact(&self) -> (r: Result<BigRat, ExtractError>)
        requires
            self.wf(),
        ensures
            match r {
                Ok(f) => self@ == ExtRat::Fin(f@) && f.wf(),
                Err(e) => !(self@ is Fin) && e == ExtractError::Unavailable,
            },
    {
        match self {
            AbnormalFraction::Normal(f) => Ok(f.clone()),
            _ => Err(ExtractError::Unavailable),
        }
    }

    pub fn is_positive(&self) -> (r: bool)
        requires
            self.wf(),
        ensures
            r <==> match self@ {
                ExtRat::Fin(x) => x.n > 0,
                ExtRat::Inf => true,
                ExtRat::NegInf => false,
                ExtRat::NaN => false,
            },
    {
        match self {
            AbnormalFraction::Normal(f) => f.is_positive(),
            AbnormalFraction::Infinite => true,
            _ => false,
        }
    }

    pub fn is_negative(&self) -> (r: bool)
        requires
            self.wf(),
        ensures
            r <==> match self@ {
                ExtRat::Fin(x) => x.n < 0,
                ExtRat::Inf => false,
                ExtRat::NegInf => true,
                ExtRat::NaN => false,
            },
    {
        match self {
            AbnormalFraction::Normal(f) => f.is_negative(),
            AbnormalFraction::NegInfinite => true,
            _ => false,
        }
    }

    /// NaN counts as "not negative", mirroring the unordered conventions.
    pub fn is_not_negative(&self) -> (r: bool)
        requires
            self.wf(),
        ensures
            r <==> match self@ {
                ExtRat::Fin(x) => x.n >= 0,
                ExtRat::Inf => true,
                ExtRat::NegInf => false,
                ExtRat::NaN => true,
            },
    {
        match self {
            AbnormalFraction::Normal(f) => !f.is_negative(),
            AbnormalFraction::Infinite => true,
            AbnormalFraction::NegInfinite => false,
            AbnormalFraction::NaN => true,
        }
    }

    /// NaN counts as "not positive", mirroring the unordered conventions.
    pub fn is_not_positive(&self) -> (r: bool)
        requires
            self.wf(),
        ensures
            r <==> match self@ {
                ExtRat::Fin(x) => x.n <= 0,
                ExtRat::Inf => false,
                ExtRat::NegInf => true,
                ExtRat::NaN => true,
            },
    {
        match self {
            AbnormalFraction::Normal(f) => !f.is_positive(),
            AbnormalFraction::Infinite => false,
            AbnormalFraction::NegInfinite => true,
            AbnormalFraction::NaN => true,
        }
    }

    pub fn neg(&self) -> (r: Self)
        requires
            self.wf(),
        ensures
            r.wf(),
            r@ == neg_v(self@),
    {
        match self {
            AbnormalFraction::Normal(f) => AbnormalFraction::Normal(f.negated()),
            AbnormalFraction::Infinite => AbnormalFraction::NegInfinite,
            AbnormalFraction::NegInfinite => AbnormalFraction::Infinite,
            AbnormalFraction::NaN => AbnormalFraction::NaN,
        }
    }

    pub fn abs(&self) -> (r: Self)
        requires
            self.wf(),
        ensures
            r.wf(),
            r@ == abs_v(self@),
    {
        match self {
            AbnormalFraction::Normal(f) => AbnormalFraction::Normal(f.abs_value()),
            AbnormalFraction::Infinite => AbnormalFraction::Infinite,
            AbnormalFraction::NegInfinite => AbnormalFraction::Infinite,
            AbnormalFraction::NaN => AbnormalFraction::NaN,
        }
    }

    pub fn floor(&self) -> (r: Self)
        requires
            self.wf(),
        ensures
            r.wf(),
            is_floor_v(r@, self@),
    {
        match self {
            AbnormalFraction::Normal(f) => AbnormalFraction::Normal(big_floor(f)),
            AbnormalFraction::Infinite => AbnormalFraction::Infinite,
            AbnormalFraction::NegInfinite => AbnormalFraction::NegInfinite,
            AbnormalFraction::NaN => AbnormalFraction::NaN,
        }
    }

    pub fn ceil(&self) -> (r: Self)
        requires
            self.wf(),
        ensures
            r.wf(),
            is_ceil_v(r@, self@),
    {
        match self {
            AbnormalFraction::Normal(f) => AbnormalFraction::Normal(big_ceil(f)),
            AbnormalFraction::Infinite => AbnormalFraction::Infinite,
            AbnormalFraction::NegInfinite => AbnormalFraction::NegInfinite,
            AbnormalFraction::NaN => AbnormalFraction::NaN,
        }
    }

    pub fn add(&self, rhs: &Self) -> (r: Self)
        requires
            self.wf(),
            rhs.wf(),
        ensures
            r.wf(),
            ext_val_eq(r@, add_v(self@, rhs@)),
    {
        match (self, rhs) {
            (AbnormalFraction::Normal(f1), AbnormalFraction::Normal(f2)) => AbnormalFraction::Normal(
                big_add(f1, f2),
            ),
            (AbnormalFraction::Normal(_), AbnormalFraction::Infinite) => AbnormalFraction::Infinite,
            (AbnormalFraction::Normal(_), AbnormalFraction::NegInfinite) => AbnormalFraction::NegInfinite,
            (AbnormalFraction::Infinite, AbnormalFraction::Normal(_)) => AbnormalFraction::Infinite,
            (AbnormalFraction::Infinite, AbnormalFraction::Infinite) => AbnormalFraction::Infinite,
            (AbnormalFraction::Infinite, AbnormalFraction::NegInfinite) => AbnormalFraction::NaN,
            (AbnormalFraction::NegInfinite, AbnormalFraction::Normal(_)) => AbnormalFraction::NegInfinite,
            (AbnormalFraction::NegInfinite, AbnormalFraction::Infinite) => AbnormalFraction::NaN,
            (AbnormalFraction::NegInfinite, AbnormalFraction::NegInfinite) => AbnormalFraction::NegInfinite,
            (_, AbnormalFraction::NaN) => AbnormalFraction::NaN,
            (AbnormalFraction::NaN, _) => AbnormalFraction::NaN,
        }
    }

    pub fn sub(&self, rhs: &Self) -> (r: Self)
        requires
            self.wf(),
            rhs.wf(),
        ensures
            r.wf(),
            ext_val_eq(r@, sub_v(self@, rhs@)),
    {
        match (self, rhs) {
            (AbnormalFraction::Normal(f1), AbnormalFraction::Normal(f2)) => AbnormalFraction::Normal(
                big_sub(f1, f2),
            ),
            (AbnormalFraction::Normal(_), AbnormalFraction::Infinite) => AbnormalFraction::NegInfinite,
            (AbnormalFraction::Normal(_), AbnormalFraction::NegInfinite) => AbnormalFraction::Infinite,
            (AbnormalFraction::Infinite, AbnormalFraction::Normal(_)) => AbnormalFraction::Infinite,
            (AbnormalFraction::Infinite, AbnormalFraction::Infinite) => AbnormalFraction::NaN,
            (AbnormalFraction::Infinite, AbnormalFraction::NegInfinite) => AbnormalFraction::Infinite,
            (AbnormalFraction::NegInfinite, AbnormalFraction::Normal(_)) => AbnormalFraction::NegInfinite,
            (AbnormalFraction::NegInfinite, AbnormalFraction::Infinite) => AbnormalFraction::NegInfinite,
            (AbnormalFraction::NegInfinite, AbnormalFraction::NegInfinite) => AbnormalFraction::NaN,
            (_, AbnormalFraction::NaN) => AbnormalFraction::NaN,
            (AbnormalFraction::NaN, _) => AbnormalFraction::NaN,
        }
    }

    pub fn mul(&self, rhs: &Self) -> (r: Self)
        requires
            self.wf(),
            rhs.wf(),
        ensures
            r.wf(),
            ext_val_eq(r@, mul_v(self@, rhs@)),
    {
        match (self, rhs) {
            (AbnormalFraction::Normal(f1), AbnormalFraction::Normal(f2)) => AbnormalFraction::Normal(
                big_mul(f1, f2),
            ),
            (AbnormalFraction::Normal(f), AbnormalFraction::Infinite) => {
                if f.is_positive() {
                    AbnormalFraction::Infinite
                } else if f.is_negative() {
                    AbnormalFraction::NegInfinite
                } else {
                    AbnormalFraction::NaN
                }
            },
            (AbnormalFraction::Normal(f), AbnormalFraction::NegInfinite) => {
                if f.is_positive() {
                    AbnormalFraction::NegInfinite
                } else if f.is_negative() {
                    AbnormalFraction::Infinite
                } else {
                    AbnormalFraction::NaN
                }
            },
            (AbnormalFraction::Infinite, AbnormalFraction::Normal(f)) => {
                if f.is_positive() {
                    AbnormalFraction::Infinite
                } else if f.is_negative() {
                    AbnormalFraction::NegInfinite
                } else {
                    AbnormalFraction::NaN
                }
            },
            (AbnormalFraction::Infinite, AbnormalFraction::Infinite) => AbnormalFraction::Infinite,
            (AbnormalFraction::Infinite, AbnormalFraction::NegInfinite) => AbnormalFraction::NegInfinite,
            (AbnormalFraction::NegInfinite, AbnormalFraction::Normal(f)) => {
                if f.is_positive() {
                    AbnormalFraction::NegInfinite
                } else if f.is_negative() {
                    AbnormalFraction::Infinite
                } else {
                    AbnormalFraction::NaN
                }
            },
            (AbnormalFraction::NegInfinite, AbnormalFraction::Infinite) => AbnormalFraction::NegInfinite,
            (AbnormalFraction::NegInfinite, AbnormalFraction::NegInfinite) => AbnormalFraction::Infinite,
            (_, AbnormalFraction::NaN) => AbnormalFraction::NaN,
            (AbnormalFraction::NaN, _) => AbnormalFraction::NaN,
        }
    }

    pub fn div(&self, rhs: &Self) -> (r: Self)
        requires
            self.wf(),
            rhs.wf(),
        ensures
            r.wf(),
            ext_val_eq(r@, div_v(self@, rhs@)),
    {
        match (self, rhs) {
            (AbnormalFraction::Normal(f1), AbnormalFraction::Normal(f2)) => {
                if !f2.is_zero() {
                    AbnormalFraction::Normal(big_div(f1, f2))
                } else {
                    AbnormalFraction::NaN
                }
            },
            (AbnormalFraction::Normal(_), AbnormalFraction::Infinite) => AbnormalFraction::Normal(
                BigRat::zero(),
            ),
            (AbnormalFraction::Normal(_), AbnormalFraction::NegInfinite) => AbnormalFraction::Normal(
                BigRat::zero(),
            ),
            (AbnormalFraction::Infinite, AbnormalFraction::Normal(f)) => {
                if f.is_positive() {
                    AbnormalFraction::Infinite
                } else if f.is_negative() {
                    AbnormalFraction::NegInfinite
                } else {
                    AbnormalFraction::NaN
                }
            },
            (AbnormalFraction::Infinite, AbnormalFraction::Infinite) => AbnormalFraction::NaN,
            (AbnormalFraction::Infinite, AbnormalFraction::NegInfinite) => AbnormalFraction::NaN,
            (AbnormalFraction::NegInfinite, AbnormalFraction::Normal(f)) => {
                if f.is_positive() {
                    AbnormalFraction::NegInfinite
                } else if f.is_negative() {
                    AbnormalFraction::Infinite
                } else {
                    AbnormalFraction::NaN
                }
            },
            (AbnormalFraction::NegInfinite, AbnormalFraction::Infinite) => AbnormalFraction::NaN,
            (AbnormalFraction::NegInfinite, AbnormalFraction::NegInfinite) => AbnormalFraction::NaN,
            (_, AbnormalFraction::NaN) => AbnormalFraction::NaN,
            (AbnormalFraction::NaN, _) => AbnormalFraction::NaN,
        }
    }

    pub fn add_assign(&mut self, rhs: &Self)
        requires
            old(self).wf(),
            rhs.wf(),
        ensures
            final(self).wf(),
            ext_val_eq(final(self)@, add_v(old(self)@, rhs@)),
    {
        let sum = self.add(rhs);
        *self = sum;
    }

    pub fn sub_assign(&mut self, rhs: &Self)
        requires
            old(self).wf(),
            rhs.wf(),
        ensures
            final(self).wf(),
            ext_val_eq(final(self)@, sub_v(old(self)@, rhs@)),
    {
        let difference = self.sub(rhs);
        *self = difference;
    }

    /// Three-way partial comparison, following `cmp_v`.
    pub fn partial_cmp(&self, other: &Self) -> (r: Option<Comparison>)
        requires
            self.wf(),
            other.wf(),
        ensures
            r == cmp_v(self@, other@),
    {
        match (self, other) {
            (AbnormalFraction::Normal(f1), AbnormalFraction::Normal(f2)) => {
                match big_cmp(f1, f2) {
                    Comparison::Less => Some(Comparison::Less),
                    Comparison::Equal => Some(Comparison::Equal),
                    Comparison::Greater => Some(Comparison::Greater),
                }
            },
            (AbnormalFraction::Normal(_), AbnormalFraction::Infinite) => Some(Comparison::Less),
            (AbnormalFraction::Normal(_), AbnormalFraction::NegInfinite) => Some(Comparison::Greater),
            (AbnormalFraction::Infinite, AbnormalFraction::Normal(_)) => Some(Comparison::Greater),
            (AbnormalFraction::Infinite, AbnormalFraction::Infinite) => None,
            (AbnormalFraction::Infinite, AbnormalFraction::NegInfinite) => Some(Comparison::Greater),
            (AbnormalFraction::NegInfinite, AbnormalFraction::Normal(_)) => Some(Comparison::Less),
            (AbnormalFraction::NegInfinite, AbnormalFraction::Infinite) => Some(Comparison::Less),
            (AbnormalFraction::NegInfinite, AbnormalFraction::NegInfinite) => None,
            (_, AbnormalFraction::NaN) => None,
            (AbnormalFraction::NaN, _) => None,
        }
    }

    /// Left-fold sum of a sequence of values, starting from exact zero.
    pub fn sum(values: &Vec<AbnormalFraction>) -> (r: Self)
        requires
            forall|i: int| 0 <= i < values@.len() ==> values@[i].wf(),
        ensures
            r.wf(),
            ext_val_eq(r@, sum_v(views_of(values@))),
    {
        let mut acc = Self::zero();
        let mut i: usize = 0;
        while i < values.len()
            invariant
                i <= values.len(),
                forall|j: int| 0 <= j < values@.len() ==> values@[j].wf(),
                acc.wf(),
                ext_val_eq(acc@, sum_v(views_of(values@.subrange(0, i as int)))),
            decreases values.len() - i,
        {
            let next = acc.add(&values[i]);
            proof {
                let pre = views_of(values@.subrange(0, i as int));
                let post = views_of(values@.subrange(0, i + 1 as int));
                assert(values@.subrange(0, i + 1 as int).drop_last() =~= values@.subrange(
                    0,
                    i as int,
                ));
                assert(post.drop_last() =~= pre);
                assert(post.last() == values@[i as int]@);
                lemma_sum_v_wf(pre);
                lemma_add_v_cong(acc@, sum_v(pre), values@[i as int]@, values@[i as int]@);
                lemma_add_v_wf(acc@, values@[i as int]@);
                lemma_sum_v_wf(post);
                lemma_ext_val_eq_trans(next@, add_v(acc@, values@[i as int]@), sum_v(post));
            }
            acc = next;
            i += 1;
        }
        proof {
            assert(values@.subrange(0, values@.len() as int) =~= values@);
        }
        acc
    }
}

impl Default for AbnormalFraction {
    /// The default value is exact zero.
    fn default() -> (r: Self)
        ensures
            r.wf(),
            r@ == ExtRat::Fin(rat_zero()),
    {
        Self::zero()
    }
}

/// The sequence of values denoted by a sequence of extended numbers.
pub open spec fn views_of(s: Seq<AbnormalFraction>) -> Seq<ExtRat> {
    s.map_values(|f: AbnormalFraction| f@)
}

/// The addition table preserves well-formedness.
pub proof fn lemma_add_v_wf(a: ExtRat, b: ExtRat)
    requires
        ext_wf(a),
        ext_wf(b),
    ensures
        ext_wf(add_v(a, b)),
{
    if a is Fin && b is Fin {
        let x = a->Fin_0;
        let y = b->Fin_0;
        assert(rat_add(x, y).d > 0) by (nonlinear_arith)
            requires
                x.d > 0,
                y.d > 0,
        ;
    }
}

/// Denoting the same extended value is transitive.
pub proof fn lemma_ext_val_eq_trans(a: ExtRat, b: ExtRat, c: ExtRat)
    requires
        ext_wf(a),
        ext_wf(b),
        ext_wf(c),
        ext_val_eq(a, b),
        ext_val_eq(b, c),
    ensures
        ext_val_eq(a, c),
{
    if a is Fin && b is Fin && c is Fin {
        crate::rational::lemma_rat_eq_trans(a->Fin_0, b->Fin_0, c->Fin_0);
    }
}

/// A fold of well-formed values by the addition table is well-formed.
pub proof fn lemma_sum_v_wf(s: Seq<ExtRat>)
    requires
        forall|i: int| 0 <= i < s.len() ==> ext_wf(s[i]),
    ensures
        ext_wf(sum_v(s)),
    decreases s.len(),
{
    if s.len() > 0 {
        lemma_sum_v_wf(s.drop_last());
        if sum_v(s.drop_last()) is Fin && s.last() is Fin {
            let x = sum_v(s.drop_last())->Fin_0;
            let y = s.last()->Fin_0;
            assert(rat_add(x, y).d > 0) by (nonlinear_arith)
                requires
                    x.d > 0,
                    y.d > 0,
            ;
        }
    }
}

/// Denoting the same extended value is preserved by the addition table.
pub proof fn lemma_add_v_cong(a1: ExtRat, a2: ExtRat, b1: ExtRat, b2: ExtRat)
    requires
        ext_wf(a1),
        ext_wf(a2),
        ext_wf(b1),
        ext_wf(b2),
        ext_val_eq(a1, a2),
        ext_val_eq(b1, b2),
    ensures
        ext_val_eq(add_v(a1, b1), add_v(a2, b2)),
{
    if a1 is Fin && b1 is Fin {
        lemma_rat_add_cong(a1->Fin_0, a2->Fin_0, b1->Fin_0, b2->Fin_0);
    }
}

/// Denoting the same extended value is preserved by the multiplication
/// table: equal rationals have the same sign, so the infinity cases agree.
pub proof fn lemma_mul_v_cong(a1: ExtRat, a2: ExtRat, b1: ExtRat, b2: ExtRat)
    requires
        ext_wf(a1),
        ext_wf(a2),
        ext_wf(b1),
        ext_wf(b2),
        ext_val_eq(a1, a2),
        ext_val_eq(b1, b2),
    ensures
        ext_val_eq(mul_v(a1, b1), mul_v(a2, b2)),
{
    if a1 is Fin && a2 is Fin {
        crate::rational::lemma_rat_eq_same_sign(a1->Fin_0, a2->Fin_0);
    }
    if b1 is Fin && b2 is Fin {
        crate::rational::lemma_rat_eq_same_sign(b1->Fin_0, b2->Fin_0);
    }
    if a1 is Fin && b1 is Fin {
        lemma_rat_mul_cong(a1->Fin_0, a2->Fin_0, b1->Fin_0, b2->Fin_0);
    }
}

/// For finite operands, addition in the extended domain is exactly rational
/// addition.
pub proof fn lemma_add_is_rational_sum(x: Rat, y: Rat)
    requires
        rat_wf(x),
        rat_wf(y),
    ensures
        add_v(ExtRat::Fin(x), ExtRat::Fin(y)) == ExtRat::Fin(rat_add(x, y)),
{
}

/// Subtracting a finite value from itself yields exactly zero.
pub proof fn lemma_sub_self(x: Rat)
    requires
        rat_wf(x),
    ensures
        ext_val_eq(sub_v(ExtRat::Fin(x), ExtRat::Fin(x)), ExtRat::Fin(rat_zero())),
{
}

/// Multiplying a finite value by one yields the same value.
pub proof fn lemma_mul_one(x: Rat)
    requires
        rat_wf(x),
    ensures
        ext_val_eq(mul_v(ExtRat::Fin(x), ExtRat::Fin(rat_one())), ExtRat::Fin(x)),
{
}

/// Dividing a nonzero finite value by itself yields exactly one.
pub proof fn lemma_div_self(x: Rat)
    requires
        rat_wf(x),
        x.n != 0,
    ensures
        ext_val_eq(div_v(ExtRat::Fin(x), ExtRat::Fin(x)), ExtRat::Fin(rat_one())),
{
    assert(x.n * x.d == x.d * x.n) by (nonlinear_arith);
    assert(-(x.n * x.d) == x.d * (-x.n)) by (nonlinear_arith);
}

/// The infinity rows of the arithmetic tables, spelled out: opposite
/// infinities annihilate to NaN under addition, like infinities under
/// subtraction; a zero finite factor times an infinity is NaN; and a finite
/// value over an infinity is exact zero.
pub proof fn lemma_infinity_table()
    ensures
        add_v(ExtRat::Inf, ExtRat::NegInf) == ExtRat::NaN,
        add_v(ExtRat::NegInf, ExtRat::Inf) == ExtRat::NaN,
        add_v(ExtRat::Inf, ExtRat::Inf) == ExtRat::Inf,
        add_v(ExtRat::NegInf, ExtRat::NegInf) == ExtRat::NegInf,
        sub_v(ExtRat::Inf, ExtRat::Inf) == ExtRat::NaN,
        sub_v(ExtRat::NegInf, ExtRat::NegInf) == ExtRat::NaN,
        mul_v(ExtRat::Inf, ExtRat::Inf) == ExtRat::Inf,
        mul_v(ExtRat::Inf, ExtRat::NegInf) == ExtRat::NegInf,
        mul_v(ExtRat::NegInf, ExtRat::NegInf) == ExtRat::Inf,
        forall|x: Rat| x.n == 0 ==> mul_v(ExtRat::Fin(x), ExtRat::Inf) == ExtRat::NaN,
        forall|x: Rat| #[trigger] div_v(ExtRat::Fin(x), ExtRat::Inf) == ExtRat::Fin(rat_zero()),
        forall|x: Rat| #[trigger] div_v(ExtRat::Fin(x), ExtRat::NegInf) == ExtRat::Fin(rat_zero()),
        forall|x: Rat| #[trigger] add_v(ExtRat::Fin(x), ExtRat::NaN) == ExtRat::NaN,
        forall|x: Rat| #[trigger] add_v(ExtRat::NaN, ExtRat::Fin(x)) == ExtRat::NaN,
{
    assert forall|x: Rat| x.n == 0 implies mul_v(ExtRat::Fin(x), ExtRat::Inf) == ExtRat::NaN by {}
}

/// The comparison conventions: NaN is incomparable with everything, positive
/// infinity is above every finite value, negative infinity below, and an
/// infinity is incomparable with itself.
pub proof fn lemma_comparison_conventions()
    ensures
        forall|a: ExtRat| #[trigger] cmp_v(ExtRat::NaN, a) == None::<Comparison>,
        forall|a: ExtRat| #[trigger] cmp_v(a, ExtRat::NaN) == None::<Comparison>,
        forall|x: Rat| #[trigger] cmp_v(ExtRat::Inf, ExtRat::Fin(x)) == Some(Comparison::Greater),
        forall|x: Rat| #[trigger] cmp_v(ExtRat::NegInf, ExtRat::Fin(x)) == Some(Comparison::Less),
        forall|x: Rat| #[trigger] cmp_v(ExtRat::Fin(x), ExtRat::Inf) == Some(Comparison::Less),
        forall|x: Rat| #[trigger] cmp_v(ExtRat::Fin(x), ExtRat::NegInf) == Some(Comparison::Greater),
        cmp_v(ExtRat::Inf, ExtRat::Inf) == None::<Comparison>,
        cmp_v(ExtRat::NegInf, ExtRat::NegInf) == None::<Comparison>,
{
}

} // verus!
