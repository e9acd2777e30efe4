//! Exact rational scalars.
//!
//! A `BigRat` holds a sign and the magnitudes of numerator and denominator as
//! base-2^64 limb vectors, least significant limb first. The mathematical
//! value of a `BigRat` is its view, a `Rat`: a pair of a (signed) numerator
//! and a positive denominator, both unbounded integers. All contracts in this
//! crate speak of values through `Rat`, and two `Rat`s denote the same
//! rational exactly when they agree under cross multiplication (`rat_eq`).
//!
//! The arbitrary-precision arithmetic itself is carried out by malachite's
//! `Rational`; each operation is a single trusted wrapper that converts limbs
//! to a `Rational`, performs the one operation, and converts back.

use vstd::prelude::*;

verus! {

use malachite::Natural;
use malachite::Rational;
use malachite::base::num::arithmetic::traits::{Sign, Floor, Ceiling, UnsignedAbs};

/// The mathematical value of an exact rational scalar: `n / d` with `d > 0`.
pub ghost struct Rat {
    pub n: int,
    pub d: int,
}

pub open spec fn rat_wf(a: Rat) -> bool {
    a.d > 0
}

/// `a` and `b` denote the same rational number.
pub open spec fn rat_eq(a: Rat, b: Rat) -> bool {
    a.n * b.d == b.n * a.d
}

/// `a` denotes a strictly smaller rational than `b`.
pub open spec fn rat_lt(a: Rat, b: Rat) -> bool {
    a.n * b.d < b.n * a.d
}

pub open spec fn rat_zero() -> Rat {
    Rat { n: 0, d: 1 }
}

pub open spec fn rat_one() -> Rat {
    Rat { n: 1, d: 1 }
}

pub open spec fn rat_add(a: Rat, b: Rat) -> Rat {
    Rat { n: a.n * b.d + b.n * a.d, d: a.d * b.d }
}

pub open spec fn rat_sub(a: Rat, b: Rat) -> Rat {
    Rat { n: a.n * b.d - b.n * a.d, d: a.d * b.d }
}

pub open spec fn rat_mul(a: Rat, b: Rat) -> Rat {
    Rat { n: a.n * b.n, d: a.d * b.d }
}

pub open spec fn rat_div(a: Rat, b: Rat) -> Rat {
    if b.n >= 0 {
        Rat { n: a.n * b.d, d: a.d * b.n }
    } else {
        Rat { n: -(a.n * b.d), d: a.d * (-b.n) }
    }
}

pub open spec fn rat_neg(a: Rat) -> Rat {
    Rat { n: -a.n, d: a.d }
}

pub open spec fn rat_abs(a: Rat) -> Rat {
    Rat { n: if a.n < 0 { -a.n } else { a.n }, d: a.d }
}

/// The natural number denoted by a little-endian base-2^64 limb vector.
pub open spec fn limbs_val(s: Seq<u64>) -> int
    decreases s.len(),
{
    if s.len() == 0 {
        0
    } else {
        s[0] + 0x10000000000000000 * limbs_val(s.subrange(1, s.len() as int))
    }
}

pub proof fn lemma_limbs_val_nonneg(s: Seq<u64>)
    ensures
        limbs_val(s) >= 0,
    decreases s.len(),
{
    if s.len() > 0 {
        lemma_limbs_val_nonneg(s.subrange(1, s.len() as int));
    }
}

/// With no trailing zero limb, a limb vector denotes zero exactly when it is empty.
pub proof fn lemma_limbs_val_zero(s: Seq<u64>)
    requires
        s.len() > 0 ==> s[s.len() - 1] != 0,
    ensures
        limbs_val(s) == 0 <==> s.len() == 0,
    decreases s.len(),
{
    if s.len() > 0 {
        let t = s.subrange(1, s.len() as int);
        lemma_limbs_val_nonneg(t);
        if s.len() == 1 {
            assert(t =~= Seq::<u64>::empty());
        } else {
            assert(t[t.len() - 1] == s[s.len() - 1]);
            lemma_limbs_val_zero(t);
        }
    }
}

pub proof fn lemma_limbs_val_singleton(x: u64)
    ensures
        limbs_val(seq![x]) == x,
{
    let s = seq![x];
    assert(s.subrange(1, 1) =~= Seq::<u64>::empty());
    assert(limbs_val(s) == s[0] + 0x10000000000000000 * limbs_val(s.subrange(1, 1)));
}

/// An exact rational scalar: sign plus limb magnitudes of numerator and denominator.
#[derive(Debug, PartialEq, Eq)]
pub struct BigRat {
    neg: bool,
    num: Vec<u64>,
    den: Vec<u64>,
}

impl View for BigRat {
    type V = Rat;

    closed spec fn view(&self) -> Rat {
        Rat {
            n: if self.neg {
                -limbs_val(self.num@)
            } else {
                limbs_val(self.num@)
            },
            d: limbs_val(self.den@),
        }
    }
}

impl BigRat {
    /// Representation invariant: no trailing zero limbs, a nonzero
    /// denominator, and the canonical (non-negative) sign for zero.
    pub closed spec fn inv(&self) -> bool {
        &&& self.num@.len() > 0 ==> self.num@[self.num@.len() - 1] != 0
        &&& self.den@.len() > 0 ==> self.den@[self.den@.len() - 1] != 0
        &&& self.den@.len() > 0
        &&& self.num@.len() == 0 ==> !self.neg
    }

    pub open spec fn wf(&self) -> bool {
        &&& self.inv()
        &&& self@.d > 0
    }

    pub closed spec fn spec_num_limbs(&self) -> Seq<u64> {
        self.num@
    }

    pub closed spec fn spec_den_limbs(&self) -> Seq<u64> {
        self.den@
    }

    /// The little-endian limbs of the numerator's magnitude.
    pub fn numerator_limbs(&self) -> (r: &Vec<u64>)
        ensures
            r@ == self.spec_num_limbs(),
            limbs_val(r@) == if self@.n < 0 {
                -self@.n
            } else {
                self@.n
            },
    {
        proof {
            lemma_limbs_val_nonneg(self.num@);
        }
        &self.num
    }

    /// The little-endian limbs of the denominator.
    pub fn denominator_limbs(&self) -> (r: &Vec<u64>)
        ensures
            r@ == self.spec_den_limbs(),
            limbs_val(r@) == self@.d,
    {
        &self.den
    }

    pub fn zero() -> (r: BigRat)
        ensures
            r.wf(),
            r@ == rat_zero(),
    {
        let mut den: Vec<u64> = Vec::new();
        den.push(1);
        proof {
            assert(den@ =~= seq![1u64]);
            lemma_limbs_val_singleton(1);
        }
        BigRat { neg: false, num: Vec::new(), den }
    }

    pub fn one() -> (r: BigRat)
        ensures
            r.wf(),
            r@ == rat_one(),
    {
        let mut num: Vec<u64> = Vec::new();
        num.push(1);
        let mut den: Vec<u64> = Vec::new();
        den.push(1);
        proof {
            assert(num@ =~= seq![1u64]);
            assert(den@ =~= seq![1u64]);
            lemma_limbs_val_singleton(1);
        }
        BigRat { neg: false, num, den }
    }

    /// The rational `n / d`.
    pub fn from_pair(n: usize, d: usize) -> (r: BigRat)
        requires
            d > 0,
        ensures
            r.wf(),
            r@.n == n as int,
            r@.d == d as int,
    {
        let mut num: Vec<u64> = Vec::new();
        if n > 0 {
            num.push(n as u64);
        }
        let mut den: Vec<u64> = Vec::new();
        den.push(d as u64);
        proof {
            if n > 0 {
                assert(num@ =~= seq![n as u64]);
                lemma_limbs_val_singleton(n as u64);
            }
            assert(den@ =~= seq![d as u64]);
            lemma_limbs_val_singleton(d as u64);
        }
        BigRat { neg: false, num, den }
    }

    pub fn is_zero(&self) -> (r: bool)
        requires
            self.wf(),
        ensures
            r <==> self@.n == 0,
    {
        proof {
            lemma_limbs_val_zero(self.num@);
            lemma_limbs_val_nonneg(self.num@);
        }
        self.num.len() == 0
    }

    pub fn is_positive(&self) -> (r: bool)
        requires
            self.wf(),
        ensures
            r <==> self@.n > 0,
    {
        proof {
            lemma_limbs_val_zero(self.num@);
            lemma_limbs_val_nonneg(self.num@);
        }
        !self.neg && self.num.len() > 0
    }

    pub fn is_negative(&self) -> (r: bool)
        requires
            self.wf(),
        ensures
            r <==> self@.n < 0,
    {
        proof {
            lemma_limbs_val_zero(self.num@);
            lemma_limbs_val_nonneg(self.num@);
        }
        self.neg
    }

    /// `-self`, computed by flipping the stored sign.
    pub fn negated(&self) -> (r: BigRat)
        requires
            self.wf(),
        ensures
            r.wf(),
            r@ == rat_neg(self@),
    {
        proof {
            lemma_limbs_val_zero(self.num@);
            lemma_limbs_val_nonneg(self.num@);
        }
        if self.num.len() == 0 {
            BigRat { neg: false, num: clone_limbs(&self.num), den: clone_limbs(&self.den) }
        } else {
            BigRat { neg: !self.neg, num: clone_limbs(&self.num), den: clone_limbs(&self.den) }
        }
    }

    /// `|self|`, computed by clearing the stored sign.
    pub fn abs_value(&self) -> (r: BigRat)
        requires
            self.wf(),
        ensures
            r.wf(),
            r@ == rat_abs(self@),
    {
        proof {
            lemma_limbs_val_nonneg(self.num@);
        }
        BigRat { neg: false, num: clone_limbs(&self.num), den: clone_limbs(&self.den) }
    }
}

impl Clone for BigRat {
    fn clone(&self) -> (r: Self)
        ensures
            r@ == self@,
            self.wf() ==> r.wf(),
    {
        BigRat { neg: self.neg, num: clone_limbs(&self.num), den: clone_limbs(&self.den) }
    }
}

fn clone_limbs(v: &Vec<u64>) -> (r: Vec<u64>)
    ensures
        r@ == v@,
{
    let mut r: Vec<u64> = Vec::new();
    let mut i: usize = 0;
    while i < v.len()
        invariant
            i <= v.len(),
            r@ == v@.subrange(0, i as int),
        decreases v.len() - i,
    {
        r.push(v[i]);
        proof {
            assert(v@.subrange(0, i + 1 as int) =~= v@.subrange(0, i as int).push(v@[i as int]));
        }
        i += 1;
    }
    proof {
        assert(r@ =~= v@);
    }
    r
}

/// Three-way comparison result; `BigRat` and `AbnormalFraction` comparisons
/// return it so that contracts can speak of the outcome directly.
#[derive(Clone, Copy, Debug, PartialEq, Eq, Structural)]
pub enum Comparison {
    Less,
    Equal,
    Greater,
}

/// Relies on malachite: `Natural::from_limbs_asc` / `to_limbs_asc` read and
/// write little-endian limbs (no trailing zeros; `Limb` is `u64` here),
/// `Rational::from_sign_and_naturals` builds the signed quotient, and `+` on
/// `Rational` is exact rational addition.
#[verifier::external_body]
pub(crate) fn big_add(a: &BigRat, b: &BigRat) -> (r: BigRat)
    requires
        a.wf(),
        b.wf(),
    ensures
        r.wf(),
        rat_eq(r@, rat_add(a@, b@)),
{
    let x = Rational::from_sign_and_naturals(
        !a.neg, Natural::from_limbs_asc(&a.num), Natural::from_limbs_asc(&a.den));
    let y = Rational::from_sign_and_naturals(
        !b.neg, Natural::from_limbs_asc(&b.num), Natural::from_limbs_asc(&b.den));
    let s = x + y;
    let neg = s.sign() == core::cmp::Ordering::Less;
    let (n, d) = s.to_numerator_and_denominator();
    BigRat { neg, num: n.to_limbs_asc(), den: d.to_limbs_asc() }
}

/// Relies on malachite: `-` on `Rational` is exact rational subtraction
/// (conversions as in `big_add`).
#[verifier::external_body]
pub(crate) fn big_sub(a: &BigRat, b: &BigRat) -> (r: BigRat)
    requires
        a.wf(),
        b.wf(),
    ensures
        r.wf(),
        rat_eq(r@, rat_sub(a@, b@)),
{
    let x = Rational::from_sign_and_naturals(
        !a.neg, Natural::from_limbs_asc(&a.num), Natural::from_limbs_asc(&a.den));
    let y = Rational::from_sign_and_naturals(
        !b.neg, Natural::from_limbs_asc(&b.num), Natural::from_limbs_asc(&b.den));
    let s = x - y;
    let neg = s.sign() == core::cmp::Ordering::Less;
    let (n, d) = s.to_numerator_and_denominator();
    BigRat { neg, num: n.to_limbs_asc(), den: d.to_limbs_asc() }
}

/// Relies on malachite: `*` on `Rational` is exact rational multiplication
/// (conversions as in `big_add`).
#[verifier::external_body]
pub(crate) fn big_mul(a: &BigRat, b: &BigRat) -> (r: BigRat)
    requires
        a.wf(),
        b.wf(),
    ensures
        r.wf(),
        rat_eq(r@, rat_mul(a@, b@)),
{
    let x = Rational::from_sign_and_naturals(
        !a.neg, Natural::from_limbs_asc(&a.num), Natural::from_limbs_asc(&a.den));
    let y = Rational::from_sign_and_naturals(
        !b.neg, Natural::from_limbs_asc(&b.num), Natural::from_limbs_asc(&b.den));
    let s = x * y;
    let neg = s.sign() == core::cmp::Ordering::Less;
    let (n, d) = s.to_numerator_and_denominator();
    BigRat { neg, num: n.to_limbs_asc(), den: d.to_limbs_asc() }
}

/// Relies on malachite: `/` on `Rational` is exact rational division; the
/// divisor must be nonzero (conversions as in `big_add`).
#[verifier::external_body]
pub(crate) fn big_div(a: &BigRat, b: &BigRat) -> (r: BigRat)
    requires
        a.wf(),
        b.wf(),
        b@.n != 0,
    ensures
        r.wf(),
        rat_eq(r@, rat_div(a@, b@)),
{
    let x = Rational::from_sign_and_naturals(
        !a.neg, Natural::from_limbs_asc(&a.num), Natural::from_limbs_asc(&a.den));
    let y = Rational::from_sign_and_naturals(
        !b.neg, Natural::from_limbs_asc(&b.num), Natural::from_limbs_asc(&b.den));
    let s = x / y;
    let neg = s.sign() == core::cmp::Ordering::Less;
    let (n, d) = s.to_numerator_and_denominator();
    BigRat { neg, num: n.to_limbs_asc(), den: d.to_limbs_asc() }
}

/// Relies on malachite: `Ord` on `Rational` compares by rational value
/// (conversions as in `big_add`).
#[verifier::external_body]
pub(crate) fn big_cmp(a: &BigRat, b: &BigRat) -> (r: Comparison)
    requires
        a.wf(),
        b.wf(),
    ensures
        (r == Comparison::Less <==> rat_lt(a@, b@)),
        (r == Comparison::Equal <==> rat_eq(a@, b@)),
        (r == Comparison::Greater <==> rat_lt(b@, a@)),
{
    let x = Rational::from_sign_and_naturals(
        !a.neg, Natural::from_limbs_asc(&a.num), Natural::from_limbs_asc(&a.den));
    let y = Rational::from_sign_and_naturals(
        !b.neg, Natural::from_limbs_asc(&b.num), Natural::from_limbs_asc(&b.den));
    match x.cmp(&y) {
        core::cmp::Ordering::Less => Comparison::Less,
        core::cmp::Ordering::Equal => Comparison::Equal,
        core::cmp::Ordering::Greater => Comparison::Greater,
    }
}

/// Relies on malachite: `Floor` on `Rational` yields the greatest `Integer`
/// not above the value; `Integer::unsigned_abs` and `Sign` split it into
/// magnitude and sign (conversions as in `big_add`).
#[verifier::external_body]
pub(crate) fn big_floor(a: &BigRat) -> (r: BigRat)
    requires
        a.wf(),
    ensures
        r.wf(),
        r@.d == 1,
        r@.n * a@.d <= a@.n,
        a@.n < (r@.n + 1) * a@.d,
{
    let x = Rational::from_sign_and_naturals(
        !a.neg, Natural::from_limbs_asc(&a.num), Natural::from_limbs_asc(&a.den));
    let f: malachite::Integer = x.floor();
    let neg = f.sign() == core::cmp::Ordering::Less;
    let m = f.unsigned_abs();
    BigRat { neg, num: m.to_limbs_asc(), den: vec![1] }
}

/// Relies on malachite: `Ceiling` on `Rational` yields the least `Integer`
/// not below the value (conversions as in `big_floor`).
#[verifier::external_body]
pub(crate) fn big_ceil(a: &BigRat) -> (r: BigRat)
    requires
        a.wf(),
    ensures
        r.wf(),
        r@.d == 1,
        (r@.n - 1) * a@.d < a@.n,
        a@.n <= r@.n * a@.d,
{
    let x = Rational::from_sign_and_naturals(
        !a.neg, Natural::from_limbs_asc(&a.num), Natural::from_limbs_asc(&a.den));
    let f: malachite::Integer = x.ceiling();
    let neg = f.sign() == core::cmp::Ordering::Less;
    let m = f.unsigned_abs();
    BigRat { neg, num: m.to_limbs_asc(), den: vec![1] }
}

/// Denoting the same rational is transitive.
pub proof fn lemma_rat_eq_trans(a: Rat, b: Rat, c: Rat)
    requires
        rat_wf(a),
        rat_wf(b),
        rat_wf(c),
        rat_eq(a, b),
        rat_eq(b, c),
    ensures
        rat_eq(a, c),
{
    assert(a.n * c.d == c.n * a.d) by (nonlinear_arith)
        requires
            a.d > 0,
            b.d > 0,
            c.d > 0,
            a.n * b.d == b.n * a.d,
            b.n * c.d == c.n * b.d,
    ;
}

/// Two pairs denoting the same rational agree on its sign.
pub proof fn lemma_rat_eq_same_sign(a: Rat, b: Rat)
    requires
        rat_wf(a),
        rat_wf(b),
        rat_eq(a, b),
    ensures
        a.n > 0 <==> b.n > 0,
        a.n < 0 <==> b.n < 0,
        a.n == 0 <==> b.n == 0,
{
    assert((a.n > 0 ==> b.n > 0) && (a.n < 0 ==> b.n < 0) && (a.n == 0 ==> b.n == 0)) by (nonlinear_arith)
        requires
            a.d > 0,
            b.d > 0,
            a.n * b.d == b.n * a.d,
    ;
    assert((b.n > 0 ==> a.n > 0) && (b.n < 0 ==> a.n < 0) && (b.n == 0 ==> a.n == 0)) by (nonlinear_arith)
        requires
            a.d > 0,
            b.d > 0,
            a.n * b.d == b.n * a.d,
    ;
}

/// Addition respects `rat_eq` in both arguments.
pub proof fn lemma_rat_add_cong(a1: Rat, a2: Rat, b1: Rat, b2: Rat)
    requires
        rat_wf(a1),
        rat_wf(a2),
        rat_wf(b1),
        rat_wf(b2),
        rat_eq(a1, a2),
        rat_eq(b1, b2),
    ensures
        rat_eq(rat_add(a1, b1), rat_add(a2, b2)),
{
    let x1 = a1.n * b1.d;
    let y1 = b1.n * a1.d;
    let z1 = a2.d * b2.d;
    assert((x1 + y1) * z1 == x1 * z1 + y1 * z1) by (nonlinear_arith);
    assert((a1.n * b1.d) * (a2.d * b2.d) == (a1.n * a2.d) * (b1.d * b2.d)) by (nonlinear_arith);
    assert((b1.n * a1.d) * (a2.d * b2.d) == (b1.n * b2.d) * (a1.d * a2.d)) by (nonlinear_arith);
    let x2 = a2.n * b2.d;
    let y2 = b2.n * a2.d;
    let z2 = a1.d * b1.d;
    assert((x2 + y2) * z2 == x2 * z2 + y2 * z2) by (nonlinear_arith);
    assert((a2.n * b2.d) * (a1.d * b1.d) == (a2.n * a1.d) * (b1.d * b2.d)) by (nonlinear_arith);
    assert((b2.n * a2.d) * (a1.d * b1.d) == (b2.n * b1.d) * (a1.d * a2.d)) by (nonlinear_arith);
}

/// Multiplication respects `rat_eq` in both arguments.
pub proof fn lemma_rat_mul_cong(a1: Rat, a2: Rat, b1: Rat, b2: Rat)
    requires
        rat_wf(a1),
        rat_wf(a2),
        rat_wf(b1),
        rat_wf(b2),
        rat_eq(a1, a2),
        rat_eq(b1, b2),
    ensures
        rat_eq(rat_mul(a1, b1), rat_mul(a2, b2)),
{
    assert((a1.n * b1.n) * (a2.d * b2.d) == (a2.n * b2.n) * (a1.d * b1.d)) by (nonlinear_arith)
        requires
            a1.n * a2.d == a2.n * a1.d,
            b1.n * b2.d == b2.n * b1.d,
    ;
}

} // verus!
