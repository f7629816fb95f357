//! Exact scores. The engine never computes with floating point: a score is a
//! rational number (final scores have denominator two, Monte Carlo estimates
//! have the simulation count in the denominator), and a move's entry in a
//! result vector may additionally be "illegal" (below everything) or
//! "forced" (above everything).

use vstd::prelude::*;

verus! {

/// A rational number `num / den` with a positive denominator.
#[derive(Clone, Copy, Debug, PartialEq, Eq, Structural)]
pub struct Rat {
    pub num: i64,
    pub den: i64,
}

/// The cross products of two 64-bit fractions fit a 128-bit integer.
proof fn lemma_cross_fits(a: i64, b: i64)
    ensures
        i128::MIN <= a as int * b as int <= i128::MAX,
{
    assert(i128::MIN <= a as int * b as int <= i128::MAX) by (nonlinear_arith)
        requires
            -0x8000_0000_0000_0000 <= a as int <= 0x7fff_ffff_ffff_ffff,
            -0x8000_0000_0000_0000 <= b as int <= 0x7fff_ffff_ffff_ffff,
    ;
}

impl Rat {
    /// The denominator is positive.
    pub open spec fn wf(self) -> bool {
        self.den > 0
    }

    /// `self <= other`, by cross-multiplication.
    pub open spec fn le_spec(self, other: Rat) -> bool {
        self.num * other.den <= other.num * self.den
    }

    /// `self < other`, by cross-multiplication.
    pub open spec fn lt_spec(self, other: Rat) -> bool {
        self.num * other.den < other.num * self.den
    }

    /// `self == other` as rationals (not necessarily as pairs).
    pub open spec fn eq_spec(self, other: Rat) -> bool {
        self.num * other.den == other.num * self.den
    }

    /// The rational `h / 2`: a score given in half-points.
    pub fn from_halves(h: i64) -> (r: Rat)
        ensures
            r.num == h,
            r.den == 2,
            r.wf(),
    {
        Rat { num: h, den: 2 }
    }

    /// Whether `self <= other`.
    pub fn le(&self, other: &Rat) -> (r: bool)
        requires
            self.wf(),
            other.wf(),
        ensures
            r == self.le_spec(*other),
    {
        proof {
            lemma_cross_fits(self.num, other.den);
            lemma_cross_fits(other.num, self.den);
        }
        (self.num as i128) * (other.den as i128) <= (other.num as i128) * (self.den as i128)
    }

    /// Whether `self < other`.
    pub fn lt(&self, other: &Rat) -> (r: bool)
        requires
            self.wf(),
            other.wf(),
        ensures
            r == self.lt_spec(*other),
    {
        proof {
            lemma_cross_fits(self.num, other.den);
            lemma_cross_fits(other.num, self.den);
        }
        (self.num as i128) * (other.den as i128) < (other.num as i128) * (self.den as i128)
    }
}

/// The score of one candidate move in a result vector: unplayable, an exact
/// rational, or forced (a move the strategy orders played unconditionally).
#[derive(Clone, Copy, Debug, PartialEq, Eq, Structural)]
pub enum MoveScore {
    Illegal,
    Value(Rat),
    Forced,
}

impl MoveScore {
    /// Any rational held is well-formed.
    pub open spec fn wf(self) -> bool {
        match self {
            MoveScore::Value(r) => r.wf(),
            _ => true,
        }
    }

    /// The order on move scores: `Illegal` below every rational, `Forced`
    /// above every rational.
    pub open spec fn le_spec(self, other: MoveScore) -> bool {
        match (self, other) {
            (MoveScore::Illegal, _) => true,
            (_, MoveScore::Forced) => true,
            (MoveScore::Value(a), MoveScore::Value(b)) => a.le_spec(b),
            (MoveScore::Forced, _) => false,
            (_, MoveScore::Illegal) => false,
        }
    }

    /// Whether `self <= other`.
    pub fn le(&self, other: &MoveScore) -> (r: bool)
        requires
            self.wf(),
            other.wf(),
        ensures
            r == self.le_spec(*other),
    {
        match (self, other) {
            (MoveScore::Illegal, _) => true,
            (_, MoveScore::Forced) => true,
            (MoveScore::Value(a), MoveScore::Value(b)) => a.le(b),
            _ => false,
        }
    }
}

} // verus!
