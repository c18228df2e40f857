use vstd::prelude::*;

verus! {

/// Mathematical model of a tableau coefficient: the rational number `n / d`
/// with `d > 0`. All contracts in this crate speak of coefficients through
/// this model, so every comparison below is exact.
pub ghost struct Ratio {
    pub n: int,
    pub d: int,
}

/// A model value is well formed when its denominator is positive.
pub open spec fn rat_wf(a: Ratio) -> bool {
    a.d > 0
}

/// Two model values denote the same rational number (cross multiplication).
pub open spec fn rat_eq(a: Ratio, b: Ratio) -> bool {
    a.n * b.d == b.n * a.d
}

/// `a <= b` as rational numbers; meaningful when both are well formed.
pub open spec fn rat_le(a: Ratio, b: Ratio) -> bool {
    a.n * b.d <= b.n * a.d
}

/// `a < b` as rational numbers; meaningful when both are well formed.
pub open spec fn rat_lt(a: Ratio, b: Ratio) -> bool {
    a.n * b.d < b.n * a.d
}

pub open spec fn rat_mul(a: Ratio, b: Ratio) -> Ratio {
    Ratio { n: a.n * b.n, d: a.d * b.d }
}

pub open spec fn rat_sub(a: Ratio, b: Ratio) -> Ratio {
    Ratio { n: a.n * b.d - b.n * a.d, d: a.d * b.d }
}

/// `a / b`; meaningful when `b.n != 0`. The sign of the divisor's numerator
/// moves into the result's numerator so the denominator stays positive.
pub open spec fn rat_div(a: Ratio, b: Ratio) -> Ratio {
    if b.n >= 0 {
        Ratio { n: a.n * b.d, d: a.d * b.n }
    } else {
        Ratio { n: -(a.n * b.d), d: -(a.d * b.n) }
    }
}

pub open spec fn rat_neg(a: Ratio) -> Ratio {
    Ratio { n: -a.n, d: a.d }
}

/// `1 / a`; meaningful when `a.n != 0`.
pub open spec fn rat_recip(a: Ratio) -> Ratio {
    if a.n >= 0 {
        Ratio { n: a.d, d: a.n }
    } else {
        Ratio { n: -a.d, d: -a.n }
    }
}

/// Whether a model value is representable by `Rat`'s fixed-width fields.
pub open spec fn rat_fits(a: Ratio) -> bool {
    &&& i32::MIN <= a.n <= i32::MAX
    &&& i32::MIN <= a.d <= i32::MAX
}

/// A tableau coefficient: the exact rational `num / den`, `den > 0`.
#[derive(Clone, Copy, Debug, PartialEq, Eq, Structural)]
pub struct Rat {
    pub num: i32,
    pub den: i32,
}

impl View for Rat {
    type V = Ratio;

    open spec fn view(&self) -> Ratio {
        Ratio { n: self.num as int, d: self.den as int }
    }
}

impl Rat {
    pub open spec fn wf(self) -> bool {
        self.den > 0
    }

    /// The whole number `v`.
    pub fn from_int(v: i32) -> (r: Rat)
        ensures
            r.wf(),
            r@ == (Ratio { n: v as int, d: 1int }),
    {
        Rat { num: v, den: 1 }
    }

    /// The rational `num / den`; `None` when `den` is zero or when a negative
    /// `den` cannot be sign-normalised within `i32`.
    pub fn new(num: i32, den: i32) -> (r: Option<Rat>)
        ensures
            match r {
                Some(v) => v.wf() && rat_eq(v@, Ratio { n: num as int, d: den as int }),
                None => den == 0 || (den < 0 && (num == i32::MIN || den == i32::MIN)),
            },
    {
        if den > 0 {
            Some(Rat { num, den })
        } else if den < 0 && num > i32::MIN && den > i32::MIN {
            proof {
                assert((-(num as int)) * (den as int) == (num as int) * (-(den as int)))
                    by (nonlinear_arith);
            }
            Some(Rat { num: -num, den: -den })
        } else {
            None
        }
    }

    /// Whether `self` and `other` denote the same rational number.
    pub fn eq_value(self, other: Rat) -> (r: bool)
        requires
            self.wf(),
            other.wf(),
        ensures
            r == rat_eq(self@, other@),
    {
        proof {
            lemma_mul_bounds(self.num as int, other.den as int, 0x8000_0000, 0x8000_0000);
            lemma_mul_bounds(other.num as int, self.den as int, 0x8000_0000, 0x8000_0000);
        }
        self.num as i64 * other.den as i64 == other.num as i64 * self.den as i64
    }
}

/// `<` on well-formed rationals is transitive.
pub proof fn lemma_rat_lt_lt_trans(a: Ratio, b: Ratio, c: Ratio)
    by (nonlinear_arith)
    requires
        rat_wf(a),
        rat_wf(b),
        rat_wf(c),
        rat_lt(a, b),
        rat_lt(b, c),
    ensures
        rat_lt(a, c),
{
}

/// `<` composed with `<=` on well-formed rationals stays strict.
pub proof fn lemma_rat_lt_le_trans(a: Ratio, b: Ratio, c: Ratio)
    by (nonlinear_arith)
    requires
        rat_wf(a),
        rat_wf(b),
        rat_wf(c),
        rat_lt(a, b),
        rat_le(b, c),
    ensures
        rat_lt(a, c),
{
}

/// Taking the reciprocal twice restores the value exactly.
pub proof fn lemma_recip_twice(v: Ratio)
    requires
        rat_wf(v),
        v.n != 0,
    ensures
        rat_recip(rat_recip(v)) == v,
{
}

/// A pivot-row cell divided by `v` and then by `1 / v` is unchanged.
pub proof fn lemma_row_cell_twice(a: Ratio, v: Ratio)
    by (nonlinear_arith)
    requires
        rat_wf(a),
        rat_wf(v),
        v.n != 0,
    ensures
        rat_eq(rat_div(rat_div(a, v), rat_recip(v)), a),
{
}

/// A pivot-column cell negated-divided by `v` and then by `1 / v` is
/// unchanged.
pub proof fn lemma_col_cell_twice(c: Ratio, v: Ratio)
    by (nonlinear_arith)
    requires
        rat_wf(c),
        rat_wf(v),
        v.n != 0,
    ensures
        rat_eq(rat_neg(rat_div(rat_neg(rat_div(c, v)), rat_recip(v))), c),
{
}

/// Dividing by `1 / v` is multiplying by `v`, exactly.
proof fn lemma_div_by_recip(x: Ratio, v: Ratio)
    requires
        rat_wf(x),
        rat_wf(v),
        v.n != 0,
    ensures
        rat_div(x, rat_recip(v)) == rat_mul(x, v),
{
    if v.n > 0 {
    } else {
        assert(-(x.n * -(v.n)) == x.n * v.n) by (nonlinear_arith);
        assert(-(x.d * -(v.d)) == x.d * v.d) by (nonlinear_arith);
    }
}

/// A negation moves out of the left factor of a product.
proof fn lemma_mul_neg_left(x: Ratio, y: Ratio)
    ensures
        rat_mul(rat_neg(x), y) == rat_neg(rat_mul(x, y)),
{
    assert((-x.n) * y.n == -(x.n * y.n)) by (nonlinear_arith);
}

/// A negation moves out of the right factor of a product.
proof fn lemma_mul_neg_right(x: Ratio, y: Ratio)
    ensures
        rat_mul(x, rat_neg(y)) == rat_neg(rat_mul(x, y)),
{
    assert(x.n * (-y.n) == -(x.n * y.n)) by (nonlinear_arith);
}

/// A product of two quotients by `v` is the product divided by `v` twice,
/// exactly.
proof fn lemma_mul_div_div(x: Ratio, y: Ratio, v: Ratio)
    requires
        rat_wf(x),
        rat_wf(y),
        rat_wf(v),
        v.n != 0,
    ensures
        rat_mul(rat_div(x, v), rat_div(y, v)) == rat_div(rat_div(rat_mul(x, y), v), v),
{
    if v.n > 0 {
        assert((x.n * v.d) * (y.n * v.d) == ((x.n * y.n) * v.d) * v.d) by (nonlinear_arith);
        assert((x.d * v.n) * (y.d * v.n) == ((x.d * y.d) * v.n) * v.n) by (nonlinear_arith);
    } else {
        assert((-(x.n * v.d)) * (-(y.n * v.d)) == -((-((x.n * y.n) * v.d)) * v.d))
            by (nonlinear_arith);
        assert((-(x.d * v.n)) * (-(y.d * v.n)) == -((-((x.d * y.d) * v.n)) * v.n))
            by (nonlinear_arith);
    }
}

/// Dividing by `v` and multiplying by `v` again restores the value.
proof fn lemma_mul_div_cancel(x: Ratio, v: Ratio)
    requires
        rat_wf(x),
        rat_wf(v),
        v.n != 0,
    ensures
        rat_eq(rat_mul(rat_div(x, v), v), x),
{
    if v.n > 0 {
        assert(((x.n * v.d) * v.n) * x.d == x.n * ((x.d * v.n) * v.d)) by (nonlinear_arith);
    } else {
        assert(((-(x.n * v.d)) * v.n) * x.d == x.n * ((-(x.d * v.n)) * v.d)) by (nonlinear_arith);
    }
}

/// Negation respects value equality.
proof fn lemma_neg_cong(x: Ratio, y: Ratio)
    requires
        rat_eq(x, y),
    ensures
        rat_eq(rat_neg(x), rat_neg(y)),
{
    assert((-x.n) * y.d == -(x.n * y.d)) by (nonlinear_arith);
    assert((-y.n) * x.d == -(y.n * x.d)) by (nonlinear_arith);
}

/// Subtracting `y` and then subtracting a value equal to `-y` restores the
/// value.
#[verifier::rlimit(100)]
proof fn lemma_sub_sub_cancel(a: Ratio, y: Ratio, z: Ratio)
    requires
        rat_wf(a),
        rat_wf(y),
        rat_wf(z),
        rat_eq(z, rat_neg(y)),
    ensures
        rat_eq(rat_sub(rat_sub(a, y), z), a),
{
    let a1 = rat_sub(a, y);
    let a2 = rat_sub(a1, z);
    assert(z.n * y.d == -(y.n * z.d)) by (nonlinear_arith)
        requires
            z.n * y.d == (-y.n) * z.d,
    ;
    assert(a.d * a1.n - a.n * a1.d == -((a.d * a.d) * y.n)) by (nonlinear_arith)
        requires
            a1.n == a.n * y.d - y.n * a.d,
            a1.d == a.d * y.d,
    ;
    assert(a2.n * a.d - a.n * a2.d == z.d * (a.d * a1.n - a.n * a1.d) - (a.d * z.n) * a1.d)
        by (nonlinear_arith)
        requires
            a2.n == a1.n * z.d - z.n * a1.d,
            a2.d == a1.d * z.d,
    ;
    assert(z.d * (-((a.d * a.d) * y.n)) == -(z.d * ((a.d * a.d) * y.n))) by (nonlinear_arith);
    assert((a.d * z.n) * a1.d == -(z.d * ((a.d * a.d) * y.n))) by (nonlinear_arith)
        requires
            a1.d == a.d * y.d,
            z.n * y.d == -(y.n * z.d),
    ;
    assert(a2.n * a.d == a.n * a2.d);
}

/// A general cell updated by the Gauss-Jordan step and then updated again
/// with the transformed pivot row, column and pivot value is unchanged: the
/// second subtrahend equals the negation of the first.
pub proof fn lemma_gen_cell_twice(a: Ratio, b: Ratio, c: Ratio, v: Ratio)
    requires
        rat_wf(a),
        rat_wf(b),
        rat_wf(c),
        rat_wf(v),
        v.n != 0,
    ensures
        rat_eq(
            rat_sub(
                rat_sub(a, rat_div(rat_mul(b, c), v)),
                rat_div(rat_mul(rat_div(b, v), rat_neg(rat_div(c, v))), rat_recip(v)),
            ),
            a,
        ),
{
    let t2 = rat_div(rat_mul(b, c), v);
    let b1 = rat_div(b, v);
    let d1 = rat_div(c, v);
    let t4 = rat_div(rat_mul(b1, rat_neg(d1)), rat_recip(v));
    lemma_mul_pos(b.d, c.d);
    lemma_div_wf(rat_mul(b, c), v);
    lemma_div_wf(b, v);
    lemma_div_wf(c, v);
    lemma_mul_pos(b1.d, d1.d);
    lemma_mul_neg_right(b1, d1);
    lemma_div_by_recip(rat_neg(rat_mul(b1, d1)), v);
    lemma_mul_neg_left(rat_mul(b1, d1), v);
    lemma_mul_div_div(b, c, v);
    assert(t4 == rat_neg(rat_mul(rat_div(t2, v), v)));
    lemma_mul_div_cancel(t2, v);
    lemma_neg_cong(rat_mul(rat_div(t2, v), v), t2);
    assert(rat_eq(t4, rat_neg(t2)));
    lemma_div_wf(rat_mul(b1, rat_neg(d1)), rat_recip(v));
    lemma_sub_sub_cancel(a, t2, t4);
}

pub(crate) proof fn lemma_mul_bounds(x: int, y: int, b1: int, b2: int)
    by (nonlinear_arith)
    requires
        -b1 <= x <= b1,
        -b2 <= y <= b2,
        0 <= b1,
        0 <= b2,
    ensures
        -(b1 * b2) <= x * y <= b1 * b2,
{
}

pub(crate) proof fn lemma_mul_pos(x: int, y: int)
    by (nonlinear_arith)
    requires
        x >= 1,
        y >= 1,
    ensures
        x * y >= 1,
{
}

/// `free1 / coeff1 < free2 / coeff2`, exactly, for non-zero coefficients.
pub fn ratio_less(free1: Rat, coeff1: Rat, free2: Rat, coeff2: Rat) -> (r: bool)
    requires
        free1.wf(),
        coeff1.wf(),
        free2.wf(),
        coeff2.wf(),
        coeff1.num != 0,
        coeff2.num != 0,
    ensures
        r == rat_lt(rat_div(free1@, coeff1@), rat_div(free2@, coeff2@)),
{
    proof {
        lemma_mul_bounds(free1.num as int, coeff1.den as int, 0x8000_0000, 0x8000_0000);
        lemma_mul_bounds(free1.den as int, coeff1.num as int, 0x8000_0000, 0x8000_0000);
        lemma_mul_bounds(free2.num as int, coeff2.den as int, 0x8000_0000, 0x8000_0000);
        lemma_mul_bounds(free2.den as int, coeff2.num as int, 0x8000_0000, 0x8000_0000);
    }
    let (n1, d1): (i128, i128) = if coeff1.num > 0 {
        (free1.num as i128 * coeff1.den as i128, free1.den as i128 * coeff1.num as i128)
    } else {
        (-(free1.num as i128 * coeff1.den as i128), -(free1.den as i128 * coeff1.num as i128))
    };
    let (n2, d2): (i128, i128) = if coeff2.num > 0 {
        (free2.num as i128 * coeff2.den as i128, free2.den as i128 * coeff2.num as i128)
    } else {
        (-(free2.num as i128 * coeff2.den as i128), -(free2.den as i128 * coeff2.num as i128))
    };
    proof {
        lemma_mul_bounds(n1 as int, d2 as int, 0x4000_0000_0000_0000, 0x4000_0000_0000_0000);
        lemma_mul_bounds(n2 as int, d1 as int, 0x4000_0000_0000_0000, 0x4000_0000_0000_0000);
    }
    n1 * d2 < n2 * d1
}

/// A quotient of well-formed rationals with a non-zero divisor is well
/// formed: its denominator comes out positive.
pub proof fn lemma_div_wf(a: Ratio, b: Ratio)
    requires
        rat_wf(a),
        rat_wf(b),
        b.n != 0,
    ensures
        rat_wf(rat_div(a, b)),
{
    if b.n > 0 {
        lemma_mul_pos(a.d, b.n);
    } else {
        lemma_mul_pos(a.d, -b.n);
        assert(a.d * -b.n == -(a.d * b.n)) by (nonlinear_arith);
    }
}

/// The pivot cell's replacement `1 / v`; `None` exactly when it does not fit.
pub fn recip_cell(v: Rat) -> (r: Option<Rat>)
    requires
        v.wf(),
        v.num != 0,
    ensures
        match r {
            Some(c) => c.wf() && c@ == rat_recip(v@) && rat_fits(rat_recip(v@)),
            None => !rat_fits(rat_recip(v@)),
        },
{
    if v.num > 0 {
        Some(Rat { num: v.den, den: v.num })
    } else if v.num > i32::MIN {
        Some(Rat { num: -v.den, den: -v.num })
    } else {
        None
    }
}

/// A pivot-row cell's replacement `a / v`; `None` exactly when it does not fit.
pub fn div_cell(a: Rat, v: Rat) -> (r: Option<Rat>)
    requires
        a.wf(),
        v.wf(),
        v.num != 0,
    ensures
        match r {
            Some(c) => c.wf() && c@ == rat_div(a@, v@) && rat_fits(rat_div(a@, v@)),
            None => !rat_fits(rat_div(a@, v@)),
        },
{
    proof {
        lemma_mul_bounds(a.num as int, v.den as int, 0x8000_0000, 0x8000_0000);
        lemma_mul_bounds(a.den as int, v.num as int, 0x8000_0000, 0x8000_0000);
    }
    let (n, d): (i128, i128) = if v.num > 0 {
        (a.num as i128 * v.den as i128, a.den as i128 * v.num as i128)
    } else {
        (-(a.num as i128 * v.den as i128), -(a.den as i128 * v.num as i128))
    };
    proof {
        if v.num > 0 {
            lemma_mul_pos(a.den as int, v.num as int);
        } else {
            lemma_mul_pos(a.den as int, -(v.num as int));
            assert(a.den as int * -(v.num as int) == -(a.den as int * v.num as int))
                by (nonlinear_arith);
        }
    }
    if n >= i32::MIN as i128 && n <= i32::MAX as i128 && d <= i32::MAX as i128 {
        Some(Rat { num: n as i32, den: d as i32 })
    } else {
        None
    }
}

/// A pivot-column cell's replacement `a / (-v)`, written as `-(a / v)`;
/// `None` exactly when it does not fit.
pub fn div_neg_cell(a: Rat, v: Rat) -> (r: Option<Rat>)
    requires
        a.wf(),
        v.wf(),
        v.num != 0,
    ensures
        match r {
            Some(c) => c.wf() && c@ == rat_neg(rat_div(a@, v@)) && rat_fits(rat_neg(rat_div(a@, v@))),
            None => !rat_fits(rat_neg(rat_div(a@, v@))),
        },
{
    proof {
        lemma_mul_bounds(a.num as int, v.den as int, 0x8000_0000, 0x8000_0000);
        lemma_mul_bounds(a.den as int, v.num as int, 0x8000_0000, 0x8000_0000);
    }
    let (n, d): (i128, i128) = if v.num > 0 {
        (-(a.num as i128 * v.den as i128), a.den as i128 * v.num as i128)
    } else {
        (a.num as i128 * v.den as i128, -(a.den as i128 * v.num as i128))
    };
    proof {
        if v.num > 0 {
            lemma_mul_pos(a.den as int, v.num as int);
        } else {
            lemma_mul_pos(a.den as int, -(v.num as int));
            assert(a.den as int * -(v.num as int) == -(a.den as int * v.num as int))
                by (nonlinear_arith);
        }
    }
    if n >= i32::MIN as i128 && n <= i32::MAX as i128 && d <= i32::MAX as i128 {
        Some(Rat { num: n as i32, den: d as i32 })
    } else {
        None
    }
}

/// A general cell's replacement `a - b * c / v` (the Gauss-Jordan update);
/// `None` exactly when it does not fit.
pub fn sub_mul_div_cell(a: Rat, b: Rat, c: Rat, v: Rat) -> (r: Option<Rat>)
    requires
        a.wf(),
        b.wf(),
        c.wf(),
        v.wf(),
        v.num != 0,
    ensures
        match r {
            Some(cc) => cc.wf() && cc@ == rat_sub(a@, rat_div(rat_mul(b@, c@), v@))
                && rat_fits(rat_sub(a@, rat_div(rat_mul(b@, c@), v@))),
            None => !rat_fits(rat_sub(a@, rat_div(rat_mul(b@, c@), v@))),
        },
{
    proof {
        lemma_mul_bounds(b.num as int, c.num as int, 0x8000_0000, 0x8000_0000);
        lemma_mul_bounds(b.den as int, c.den as int, 0x8000_0000, 0x8000_0000);
        lemma_mul_pos(b.den as int, c.den as int);
    }
    let tn: i128 = b.num as i128 * c.num as i128;
    let td: i128 = b.den as i128 * c.den as i128;
    proof {
        lemma_mul_bounds(tn as int, v.den as int, 0x4000_0000_0000_0000, 0x8000_0000);
        lemma_mul_bounds(td as int, v.num as int, 0x4000_0000_0000_0000, 0x8000_0000);
    }
    let (un, ud): (i128, i128) = if v.num > 0 {
        (tn * v.den as i128, td * v.num as i128)
    } else {
        (-(tn * v.den as i128), -(td * v.num as i128))
    };
    proof {
        if v.num > 0 {
            lemma_mul_pos(td as int, v.num as int);
        } else {
            lemma_mul_pos(td as int, -(v.num as int));
            assert(td as int * -(v.num as int) == -(td as int * v.num as int))
                by (nonlinear_arith);
        }
        lemma_mul_bounds(a.num as int, ud as int, 0x8000_0000, 0x2000_0000_0000_0000_0000_0000);
        lemma_mul_bounds(un as int, a.den as int, 0x2000_0000_0000_0000_0000_0000, 0x8000_0000);
        lemma_mul_bounds(a.den as int, ud as int, 0x8000_0000, 0x2000_0000_0000_0000_0000_0000);
        lemma_mul_pos(a.den as int, ud as int);
    }
    let n: i128 = a.num as i128 * ud - un * a.den as i128;
    let d: i128 = a.den as i128 * ud;
    if n >= i32::MIN as i128 && n <= i32::MAX as i128 && d <= i32::MAX as i128 {
        Some(Rat { num: n as i32, den: d as i32 })
    } else {
        None
    }
}

} // verus!
