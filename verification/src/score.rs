//! Exact rational relevance scores and their order.

use vstd::prelude::*;

verus! {

/// The mathematical value of a score: the rational number `num / den`.
pub struct Ratio {
    pub num: int,
    pub den: int,
}

impl Ratio {
    /// `self <= other` as rationals, for positive denominators.
    pub open spec fn at_most(self, other: Ratio) -> bool {
        self.num * other.den <= other.num * self.den
    }

    /// `self == other` as rationals, for positive denominators.
    pub open spec fn same(self, other: Ratio) -> bool {
        self.num * other.den == other.num * self.den
    }

    /// The value is exactly one.
    pub open spec fn is_one(self) -> bool {
        self.num == self.den
    }

    /// The denominator is positive, so that the value is defined.
    pub open spec fn proper(self) -> bool {
        self.den > 0
    }
}

/// Any two ratios are comparable.
pub proof fn lemma_at_most_total(a: Ratio, b: Ratio)
    ensures
        a.at_most(b) || b.at_most(a),
{
}

/// The order on ratios with positive denominators is transitive.
pub proof fn lemma_at_most_transitive(a: Ratio, b: Ratio, c: Ratio)
    requires
        a.proper(),
        b.proper(),
        c.proper(),
        a.at_most(b),
        b.at_most(c),
    ensures
        a.at_most(c),
{
    let (an, ad, bn, bd, cn, cd) = (a.num, a.den, b.num, b.den, c.num, c.den);
    assert((an * bd) * cd <= (bn * ad) * cd) by (nonlinear_arith)
        requires
            an * bd <= bn * ad,
            cd > 0,
    ;
    assert((bn * cd) * ad <= (cn * bd) * ad) by (nonlinear_arith)
        requires
            bn * cd <= cn * bd,
            ad > 0,
    ;
    assert((an * cd) * bd <= (cn * ad) * bd) by (nonlinear_arith)
        requires
            (an * bd) * cd <= (bn * ad) * cd,
            (bn * cd) * ad <= (cn * bd) * ad,
    ;
    assert(an * cd <= cn * ad) by (nonlinear_arith)
        requires
            (an * cd) * bd <= (cn * ad) * bd,
            bd > 0,
    ;
}

/// Largest magnitude a score's numerator may have, and largest denominator.
pub const SCORE_LIMIT: i128 = 0xFFFF_FFFF_FFFF_FFFF;

/// A relevance score held exactly, as a numerator over a positive denominator.
#[derive(Clone, Copy, Debug)]
pub struct Score {
    num: i128,
    den: u64,
}

impl View for Score {
    type V = Ratio;

    closed spec fn view(&self) -> Ratio {
        Ratio { num: self.num as int, den: self.den as int }
    }
}

impl Score {
    #[verifier::type_invariant]
    spec fn inv(self) -> bool {
        &&& self.den >= 1
        &&& -SCORE_LIMIT <= self.num <= SCORE_LIMIT
    }

    /// Whether `num / den` can be held: a positive denominator and a
    /// numerator within `SCORE_LIMIT` of zero.
    pub open spec fn representable(num: int, den: int) -> bool {
        &&& 1 <= den <= SCORE_LIMIT
        &&& -SCORE_LIMIT <= num <= SCORE_LIMIT
    }

    /// The score `num / den`, where it can be held.
    pub fn new(num: i128, den: u64) -> (r: Option<Score>)
        ensures
            r is Some <==> Score::representable(num as int, den as int),
            r matches Some(s) ==> s@ == (Ratio { num: num as int, den: den as int }),
    {
        if den >= 1 && -SCORE_LIMIT <= num && num <= SCORE_LIMIT {
            Some(Score { num, den })
        } else {
            None
        }
    }

    /// The score `num / den`, which can be held.
    pub(crate) fn exact(num: i128, den: u64) -> (s: Score)
        requires
            Score::representable(num as int, den as int),
        ensures
            s@ == (Ratio { num: num as int, den: den as int }),
    {
        Score { num, den }
    }

    /// The score one.
    pub fn one() -> (s: Score)
        ensures
            s@ == (Ratio { num: 1, den: 1 }),
    {
        Score { num: 1, den: 1 }
    }

    pub fn numerator(&self) -> (n: i128)
        ensures
            n == self@.num,
            -SCORE_LIMIT <= n <= SCORE_LIMIT,
    {
        proof {
            use_type_invariant(self);
        }
        self.num
    }

    pub fn denominator(&self) -> (d: u64)
        ensures
            d == self@.den,
            d >= 1,
    {
        proof {
            use_type_invariant(self);
        }
        self.den
    }

    /// Whether the score is exactly one.
    pub fn is_one(&self) -> (r: bool)
        ensures
            r == self@.is_one(),
    {
        self.num == self.den as i128
    }

    /// Whether this score is at least `other`, compared exactly.
    pub fn at_least(&self, other: &Score) -> (r: bool)
        ensures
            r == other@.at_most(self@),
            self@.proper(),
            other@.proper(),
    {
        proof {
            use_type_invariant(self);
            use_type_invariant(other);
        }
        let a: i128 = self.num;
        let b: i128 = other.num;
        let sd: u128 = self.den as u128;
        let od: u128 = other.den as u128;
        if a >= 0 && b < 0 {
            assert((b as int) * (sd as int) <= (a as int) * (od as int)) by (nonlinear_arith)
                requires
                    a >= 0,
                    b < 0,
                    sd >= 1,
                    od >= 1,
            ;
            true
        } else if a < 0 && b >= 0 {
            assert(!((b as int) * (sd as int) <= (a as int) * (od as int))) by (nonlinear_arith)
                requires
                    a < 0,
                    b >= 0,
                    sd >= 1,
                    od >= 1,
            ;
            false
        } else if a >= 0 {
            let ma: u128 = a as u128;
            let mb: u128 = b as u128;
            proof {
                lemma_product_fits(ma as int, od as int);
                lemma_product_fits(mb as int, sd as int);
            }
            mb * sd <= ma * od
        } else {
            let ma: u128 = (-a) as u128;
            let mb: u128 = (-b) as u128;
            proof {
                lemma_product_fits(ma as int, od as int);
                lemma_product_fits(mb as int, sd as int);
                assert((b as int) * (sd as int) == -((mb as int) * (sd as int))) by (nonlinear_arith)
                    requires
                        mb as int == -(b as int),
                ;
                assert((a as int) * (od as int) == -((ma as int) * (od as int))) by (nonlinear_arith)
                    requires
                        ma as int == -(a as int),
                ;
            }
            ma * od <= mb * sd
        }
    }
}

/// The product of two magnitudes within `SCORE_LIMIT` fits in 128 bits.
proof fn lemma_product_fits(x: int, y: int)
    requires
        0 <= x <= SCORE_LIMIT,
        0 <= y <= SCORE_LIMIT,
    ensures
        0 <= x * y <= u128::MAX,
{
    assert(0 <= x * y <= 0xFFFF_FFFF_FFFF_FFFF * 0xFFFF_FFFF_FFFF_FFFF) by (nonlinear_arith)
        requires
            0 <= x <= 0xFFFF_FFFF_FFFF_FFFF,
            0 <= y <= 0xFFFF_FFFF_FFFF_FFFF,
    ;
}

} // verus!
