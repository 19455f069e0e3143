//! Scale factors, held exactly as a ratio of two integers.
use vstd::prelude::*;
use vstd::arithmetic::div_mod::{lemma_div_is_ordered, lemma_div_multiples_vanish_fancy, lemma_fundamental_div_mod};
use vstd::arithmetic::mul::{lemma_mul_inequality, lemma_mul_is_commutative, lemma_mul_upper_bound};

verus! {

/// A non-negative scale factor `num / den`.
#[derive(Clone, Copy, Debug, PartialEq, Eq, Structural)]
pub struct Scale {
    pub num: u64,
    pub den: u64,
}

impl Scale {
    /// A scale factor has a positive denominator.
    pub open spec fn wf(self) -> bool {
        self.den > 0
    }

    /// The scale factor `num / den`, or `None` when `den` is zero.
    pub fn new(num: u64, den: u64) -> (r: Option<Scale>)
        ensures
            r is Some <==> den > 0,
            r is Some ==> r->0 == (Scale { num, den }),
    {
        if den == 0 {
            None
        } else {
            Some(Scale { num, den })
        }
    }

    /// The factor one, which leaves positions as they are.
    pub fn one() -> (r: Scale)
        ensures
            r == (Scale { num: 1, den: 1 }),
    {
        Scale { num: 1, den: 1 }
    }

    /// Whether this factor is at most `other`.
    pub open spec fn at_most(self, other: Scale) -> bool {
        self.num * other.den <= other.num * self.den
    }
}

/// `floor(x * s)`.
pub open spec fn scale_floor(x: nat, s: Scale) -> nat {
    (x * s.num / s.den as int) as nat
}

/// `floor(x * s)`, held to the largest `usize`.
pub open spec fn scaled(x: nat, s: Scale) -> usize {
    if scale_floor(x, s) > usize::MAX {
        usize::MAX
    } else {
        scale_floor(x, s) as usize
    }
}

proof fn lemma_product_fits(x: u128, n: u128)
    requires
        x <= u64::MAX,
        n <= u64::MAX,
    ensures
        x * n <= u128::MAX,
{
    lemma_mul_upper_bound(x as int, u64::MAX as int, n as int, u64::MAX as int);
    assert(u64::MAX as int * u64::MAX as int <= u128::MAX) by (nonlinear_arith);
}

/// `floor(x * factor)` as a wide integer; it never overflows.
fn scale_wide(x: u64, factor: Scale) -> (r: u128)
    requires
        factor.wf(),
    ensures
        r == scale_floor(x as nat, factor),
{
    proof {
        lemma_product_fits(x as u128, factor.num as u128);
    }
    (x as u128 * factor.num as u128) / factor.den as u128
}

/// Scales a position by `factor`, rounding down.
pub fn scale(x: usize, factor: Scale) -> (r: usize)
    requires
        factor.wf(),
    ensures
        r == scaled(x as nat, factor),
{
    let q = scale_wide(x as u64, factor);
    if q > usize::MAX as u128 {
        usize::MAX
    } else {
        q as usize
    }
}

/// The output row of the input line with index `i` (counted from zero)
/// under the vertical scale `factor`.
pub fn row_index(i: u64, factor: Scale) -> (r: u128)
    requires
        factor.wf(),
    ensures
        r == scale_floor(i as nat, factor),
{
    scale_wide(i, factor)
}

/// A factor of one leaves positions as they are.
pub proof fn lemma_scale_floor_unit(x: nat, s: Scale)
    requires
        s.wf(),
        s.num == s.den,
    ensures
        scale_floor(x, s) == x,
{
    lemma_div_multiples_vanish_fancy(x as int, 0, s.den as int);
    assert(x * s.num == x * s.den);
    lemma_mul_is_commutative(x as int, s.den as int);
}

/// Rows keep the order of lines: under any scale factor a later line never
/// maps to an earlier output row.
pub proof fn lemma_row_index_monotonic(i: nat, j: nat, factor: Scale)
    requires
        factor.wf(),
        i <= j,
    ensures
        scale_floor(i, factor) <= scale_floor(j, factor),
{
    lemma_mul_inequality(i as int, j as int, factor.num as int);
    lemma_div_is_ordered(i * factor.num, j * factor.num, factor.den as int);
}

/// A larger factor never gives a smaller scaled position.
pub proof fn lemma_scale_floor_monotonic_in_factor(x: nat, a: Scale, b: Scale)
    requires
        a.wf(),
        b.wf(),
        a.at_most(b),
    ensures
        scale_floor(x, a) <= scale_floor(x, b),
{
    let q = scale_floor(x, a);
    let da = a.den as int;
    let db = b.den as int;
    lemma_fundamental_div_mod(x * a.num, da);
    assert(q * da <= x * a.num) by (nonlinear_arith)
        requires
            x * a.num == da * ((x * a.num) / da) + (x * a.num) % da,
            q == (x * a.num) / da,
            0 <= (x * a.num) % da,
            da > 0,
    ;
    assert(q * da * db <= x * a.num * db) by (nonlinear_arith)
        requires
            q * da <= x * a.num,
            db > 0,
    ;
    assert(x * a.num * db <= x * b.num * da) by (nonlinear_arith)
        requires
            a.num * db <= b.num * da,
            x >= 0,
    ;
    assert(q * db <= x * b.num) by (nonlinear_arith)
        requires
            q * da * db <= x * b.num * da,
            da > 0,
    ;
    lemma_div_is_ordered(q * db, x * b.num, db);
    lemma_div_multiples_vanish_fancy(q as int, 0, db);
}

/// `scaled` inherits the monotonicity of `scale_floor` in the factor.
pub proof fn lemma_scaled_monotonic_in_factor(x: nat, a: Scale, b: Scale)
    requires
        a.wf(),
        b.wf(),
        a.at_most(b),
    ensures
        scaled(x, a) <= scaled(x, b),
{
    lemma_scale_floor_monotonic_in_factor(x, a, b);
}

} // verus!
