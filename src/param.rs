//! Ray parameters as exact fractions.
//!
//! A point on a ray is `origin + t * direction`. Over lattice coordinates the
//! parameter `t` of an intersection is a fraction, so it is kept as a
//! numerator over a positive denominator and compared by cross-multiplication.
use vstd::prelude::*;

verus! {

/// Largest magnitude of a numerator or denominator of a [`Param`].
pub const PARAM_LIMIT: i64 = 0x4000_0000_0000_0000;

/// The fraction `num / den`, with `den > 0`.
#[derive(Clone, Copy, Debug, PartialEq, Eq, Structural)]
pub struct Param {
    pub num: i64,
    pub den: i64,
}

/// `a <= b` for fractions given as (numerator, positive denominator).
pub open spec fn q_le(a: (int, int), b: (int, int)) -> bool {
    a.0 * b.1 <= b.0 * a.1
}

/// `a < b` for fractions given as (numerator, positive denominator).
pub open spec fn q_lt(a: (int, int), b: (int, int)) -> bool {
    a.0 * b.1 < b.0 * a.1
}

impl Param {
    pub open spec fn view(self) -> (int, int) {
        (self.num as int, self.den as int)
    }

    pub open spec fn wf(self) -> bool {
        0 < self.den <= PARAM_LIMIT && -PARAM_LIMIT <= self.num <= PARAM_LIMIT
    }

    pub fn new(num: i64, den: i64) -> (r: Param)
        requires
            0 < den <= PARAM_LIMIT,
            -PARAM_LIMIT <= num <= PARAM_LIMIT,
        ensures
            r.num == num && r.den == den,
            r.wf(),
    {
        Param { num, den }
    }

    /// The whole number `n`.
    pub fn from_int(n: i64) -> (r: Param)
        requires
            -PARAM_LIMIT <= n <= PARAM_LIMIT,
        ensures
            r@ == (n as int, 1int),
            r.wf(),
    {
        Param { num: n, den: 1 }
    }

    /// A parameter beyond every intersection that this library reports.
    pub fn infinity() -> (r: Param)
        ensures
            r@ == (PARAM_LIMIT as int, 1int),
            r.wf(),
    {
        Param { num: PARAM_LIMIT, den: 1 }
    }

    /// The parameter below every intersection that this library reports.
    pub fn neg_infinity() -> (r: Param)
        ensures
            r@ == (-PARAM_LIMIT as int, 1int),
            r.wf(),
    {
        Param { num: -PARAM_LIMIT, den: 1 }
    }

    pub fn le(&self, o: &Param) -> (r: bool)
        requires
            self.wf(),
            o.wf(),
        ensures
            r == q_le(self@, o@),
    {
        proof {
            lemma_param_products(*self, *o);
        }
        (self.num as i128) * (o.den as i128) <= (o.num as i128) * (self.den as i128)
    }

    pub fn lt(&self, o: &Param) -> (r: bool)
        requires
            self.wf(),
            o.wf(),
        ensures
            r == q_lt(self@, o@),
    {
        proof {
            lemma_param_products(*self, *o);
        }
        (self.num as i128) * (o.den as i128) < (o.num as i128) * (self.den as i128)
    }

    /// The larger of two parameters.
    pub fn max(&self, o: &Param) -> (r: Param)
        requires
            self.wf(),
            o.wf(),
        ensures
            r == (if q_le(self@, o@) {
                *o
            } else {
                *self
            }),
    {
        if self.le(o) {
            *o
        } else {
            *self
        }
    }

    /// The smaller of two parameters.
    pub fn min(&self, o: &Param) -> (r: Param)
        requires
            self.wf(),
            o.wf(),
        ensures
            r == (if q_le(self@, o@) {
                *self
            } else {
                *o
            }),
    {
        if self.le(o) {
            *self
        } else {
            *o
        }
    }
}

proof fn lemma_param_products(a: Param, b: Param)
    requires
        a.wf(),
        b.wf(),
    ensures
        -0x1000_0000_0000_0000_0000_0000_0000_0000 <= a.num * b.den
            <= 0x1000_0000_0000_0000_0000_0000_0000_0000,
        -0x1000_0000_0000_0000_0000_0000_0000_0000 <= b.num * a.den
            <= 0x1000_0000_0000_0000_0000_0000_0000_0000,
{
    crate::vec3::lemma_mul_within(a.num as int, b.den as int, PARAM_LIMIT as int, PARAM_LIMIT as int);
    crate::vec3::lemma_mul_within(b.num as int, a.den as int, PARAM_LIMIT as int, PARAM_LIMIT as int);
}

/// `<=` on fractions with positive denominators is transitive.
pub proof fn lemma_q_le_trans(a: (int, int), b: (int, int), c: (int, int))
    requires
        a.1 > 0,
        b.1 > 0,
        c.1 > 0,
        q_le(a, b),
        q_le(b, c),
    ensures
        q_le(a, c),
{
    assert(a.0 * c.1 <= c.0 * a.1) by (nonlinear_arith)
        requires
            a.0 * b.1 <= b.0 * a.1,
            b.0 * c.1 <= c.0 * b.1,
            a.1 > 0,
            b.1 > 0,
            c.1 > 0,
    ;
}

} // verus!
