//! Exact non-negative fractions, used wherever a score is compared against a
//! threshold or against another score.

use vstd::prelude::*;

verus! {

/// The fraction `numerator / denominator`; the denominator is never zero.
#[derive(Debug, Clone, Copy, PartialEq, Eq)]
pub struct Ratio {
    pub numerator: usize,
    pub denominator: usize,
}

/// Products of two `usize` values fit in a `u128`.
proof fn lemma_product_fits(a: usize, b: usize)
    ensures
        (a as u128) * (b as u128) <= u128::MAX,
{
    assert(usize::MAX <= 0xffff_ffff_ffff_ffffu128);
    let x = a as u128;
    let y = b as u128;
    assert(x * y <= 0xffff_ffff_ffff_ffffu128 * 0xffff_ffff_ffff_ffffu128) by (nonlinear_arith)
        requires
            x <= 0xffff_ffff_ffff_ffffu128,
            y <= 0xffff_ffff_ffff_ffffu128,
    ;
}

/// `>=` between fractions is total.
pub proof fn lemma_ge_total(a: Ratio, b: Ratio)
    requires
        !a.spec_ge(b),
    ensures
        b.spec_ge(a),
{
}

/// `>=` between usable fractions is transitive.
pub proof fn lemma_ge_trans(a: Ratio, b: Ratio, c: Ratio)
    requires
        a.wf(),
        b.wf(),
        c.wf(),
        a.spec_ge(b),
        b.spec_ge(c),
    ensures
        a.spec_ge(c),
{
    let an = a.numerator as int;
    let ad = a.denominator as int;
    let bn = b.numerator as int;
    let bd = b.denominator as int;
    let cn = c.numerator as int;
    let cd = c.denominator as int;
    assert(an * bd * cd >= bn * ad * cd) by (nonlinear_arith)
        requires
            an * bd >= bn * ad,
            cd > 0,
    ;
    assert(bn * cd * ad >= cn * bd * ad) by (nonlinear_arith)
        requires
            bn * cd >= cn * bd,
            ad > 0,
    ;
    assert(an * cd >= cn * ad) by (nonlinear_arith)
        requires
            an * bd * cd >= bn * ad * cd,
            bn * cd * ad >= cn * bd * ad,
            bd > 0,
    ;
}

impl Ratio {
    /// A usable fraction has a positive denominator.
    pub open spec fn wf(self) -> bool {
        self.denominator > 0
    }

    /// `self > other`, compared exactly by cross-multiplication.
    pub open spec fn spec_gt(self, other: Ratio) -> bool {
        self.numerator * other.denominator > other.numerator * self.denominator
    }

    /// `self >= other`, compared exactly by cross-multiplication.
    pub open spec fn spec_ge(self, other: Ratio) -> bool {
        self.numerator * other.denominator >= other.numerator * self.denominator
    }

    /// Builds a fraction.
    pub fn new(numerator: usize, denominator: usize) -> (r: Ratio)
        requires
            denominator > 0,
        ensures
            r.numerator == numerator,
            r.denominator == denominator,
            r.wf(),
    {
        Ratio { numerator, denominator }
    }

    /// Whether `self` is strictly greater than `other`.
    pub fn gt(&self, other: &Ratio) -> (b: bool)
        ensures
            b == self.spec_gt(*other),
    {
        proof {
            lemma_product_fits(self.numerator, other.denominator);
            lemma_product_fits(other.numerator, self.denominator);
        }
        (self.numerator as u128) * (other.denominator as u128) > (other.numerator as u128) * (
        self.denominator as u128)
    }

    /// Whether `self` is at least `other`.
    pub fn ge(&self, other: &Ratio) -> (b: bool)
        ensures
            b == self.spec_ge(*other),
    {
        proof {
            lemma_product_fits(self.numerator, other.denominator);
            lemma_product_fits(other.numerator, self.denominator);
        }
        (self.numerator as u128) * (other.denominator as u128) >= (other.numerator as u128) * (
        self.denominator as u128)
    }
}

} // verus!
