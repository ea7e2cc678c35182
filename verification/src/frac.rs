//! The executable scalar: an exact fraction of two machine integers.
//!
//! A [`Frac`] stores a numerator and a nonnegative denominator, reduced by
//! their greatest common divisor so that intermediate values stay small. Its
//! view is the formal fraction it denotes, a [`Rat`]; every operation either
//! returns a representative of the exact result or reports, by `None`, that
//! no reduced representative fits in the machine range. A zero denominator
//! marks an undefined quantity and propagates through the operations, the
//! exact analogue of dividing by a zero pivot.

use vstd::arithmetic::div_mod::{
    lemma_add_mod_noop, lemma_fundamental_div_mod, lemma_fundamental_div_mod_converse,
    lemma_mod_self_0, lemma_mul_mod_noop_left, lemma_small_mod,
};
use vstd::prelude::*;

use crate::rat::{rat_add, rat_div, rat_eq, rat_int, rat_mul, rat_neg, rat_sub, Rat};

verus! {

/// The magnitude of an integer.
pub open spec fn abs_i(x: int) -> int {
    if x < 0 {
        -x
    } else {
        x
    }
}

/// Euclid's greatest common divisor.
pub open spec fn gcd_spec(a: nat, b: nat) -> nat
    decreases b,
{
    if b == 0 {
        a
    } else {
        gcd_spec(b, a % b)
    }
}

/// The sign-normalized numerator of a formal pair: the denominator is made
/// nonnegative by negating both components when needed.
pub open spec fn norm_n(n0: int, d0: int) -> int {
    if d0 < 0 {
        -n0
    } else {
        n0
    }
}

/// The sign-normalized denominator of a formal pair.
pub open spec fn norm_d(n0: int, d0: int) -> int {
    if d0 < 0 {
        -d0
    } else {
        d0
    }
}

/// The canonical representative of a formal pair: sign-normalized, then
/// divided through by the greatest common divisor of the magnitudes. The
/// all-zero pair is its own canonical form.
pub open spec fn canon(n0: int, d0: int) -> Rat {
    let g = gcd_spec(abs_i(norm_n(n0, d0)) as nat, norm_d(n0, d0) as nat) as int;
    if g == 0 {
        Rat { n: 0, d: 0 }
    } else {
        Rat { n: norm_n(n0, d0) / g, d: norm_d(n0, d0) / g }
    }
}

/// Whether the canonical representative of a formal pair fits the machine
/// range; exactly then does the corresponding operation return a value.
pub open spec fn canon_ok(n0: int, d0: int) -> bool {
    -0x7fff_ffff_ffff_ffff <= canon(n0, d0).n <= 0x7fff_ffff_ffff_ffff && canon(n0, d0).d
        <= 0x7fff_ffff_ffff_ffff
}

/// The canonical result of an exact addition.
pub open spec fn frac_add(a: Rat, b: Rat) -> Rat {
    canon(rat_add(a, b).n, rat_add(a, b).d)
}

/// Whether an exact addition returns a value.
pub open spec fn frac_add_ok(a: Rat, b: Rat) -> bool {
    canon_ok(rat_add(a, b).n, rat_add(a, b).d)
}

/// The canonical result of an exact subtraction.
pub open spec fn frac_sub(a: Rat, b: Rat) -> Rat {
    canon(rat_sub(a, b).n, rat_sub(a, b).d)
}

/// Whether an exact subtraction returns a value.
pub open spec fn frac_sub_ok(a: Rat, b: Rat) -> bool {
    canon_ok(rat_sub(a, b).n, rat_sub(a, b).d)
}

/// The canonical result of an exact multiplication.
pub open spec fn frac_mul(a: Rat, b: Rat) -> Rat {
    canon(rat_mul(a, b).n, rat_mul(a, b).d)
}

/// Whether an exact multiplication returns a value.
pub open spec fn frac_mul_ok(a: Rat, b: Rat) -> bool {
    canon_ok(rat_mul(a, b).n, rat_mul(a, b).d)
}

/// The canonical result of an exact division.
pub open spec fn frac_div(a: Rat, b: Rat) -> Rat {
    canon(rat_div(a, b).n, rat_div(a, b).d)
}

/// Whether an exact division returns a value.
pub open spec fn frac_div_ok(a: Rat, b: Rat) -> bool {
    canon_ok(rat_div(a, b).n, rat_div(a, b).d)
}

/// A quantity that divides both `y` and `x % y` divides `x` as well.
proof fn lemma_div_transfer(dd: int, x: int, y: int)
    requires
        dd >= 1,
        y >= 1,
        x >= 0,
        y % dd == 0,
        (x % y) % dd == 0,
    ensures
        x % dd == 0,
{
    lemma_fundamental_div_mod(x, y);
    let q = x / y;
    let r = x % y;
    lemma_mul_mod_noop_left(y, q, dd);
    assert((y % dd) * q == 0);
    lemma_small_mod(0nat, dd as nat);
    assert((y * q) % dd == 0);
    lemma_add_mod_noop(y * q, r, dd);
    assert(((y * q) % dd + r % dd) % dd == (y * q + r) % dd);
}

/// A positive divisor of a positive quantity is no larger than it.
proof fn lemma_divisor_le(x: int, d: int)
    requires
        x >= 1,
        d >= 1,
        x % d == 0,
    ensures
        d <= x,
{
    lemma_fundamental_div_mod(x, d);
    let q = x / d;
    assert(x == d * q);
    assert(q >= 1) by (nonlinear_arith)
        requires
            x == d * q,
            x >= 1,
            d >= 1,
    ;
    assert(d <= d * q) by (nonlinear_arith)
        requires
            d >= 1,
            q >= 1,
    ;
}

/// Exact division: a nonnegative multiple of `d` is `d` times its quotient.
proof fn lemma_exact_div(x: int, d: int)
    requires
        x >= 0,
        d >= 1,
        x % d == 0,
    ensures
        x == d * (x / d),
{
    lemma_fundamental_div_mod(x, d);
}

/// The product of a machine integer and a nonnegative machine integer stays
/// comfortably inside the doubled machine range.
pub(crate) proof fn lemma_prod_bound_nd(a: int, b: int)
    requires
        -0x8000_0000_0000_0000 <= a <= 0x7fff_ffff_ffff_ffff,
        0 <= b <= 0x7fff_ffff_ffff_ffff,
    ensures
        -0x3fff_ffff_ffff_ffff_8000_0000_0000_0000 <= a * b
            <= 0x3fff_ffff_ffff_ffff_8000_0000_0000_0000,
{
    assert(-0x3fff_ffff_ffff_ffff_8000_0000_0000_0000 <= a * b
        <= 0x3fff_ffff_ffff_ffff_8000_0000_0000_0000) by (nonlinear_arith)
        requires
            -0x8000_0000_0000_0000 <= a <= 0x7fff_ffff_ffff_ffff,
            0 <= b <= 0x7fff_ffff_ffff_ffff,
    ;
}

/// The product of two machine integers fits in the doubled machine range.
pub(crate) proof fn lemma_prod_bound(a: int, b: int)
    requires
        -0x8000_0000_0000_0000 <= a <= 0x7fff_ffff_ffff_ffff,
        -0x8000_0000_0000_0000 <= b <= 0x7fff_ffff_ffff_ffff,
    ensures
        -0x3fff_ffff_ffff_ffff_8000_0000_0000_0000 <= a * b
            <= 0x4000_0000_0000_0000_0000_0000_0000_0000,
{
    assert(-0x3fff_ffff_ffff_ffff_8000_0000_0000_0000 <= a * b
        <= 0x4000_0000_0000_0000_0000_0000_0000_0000) by (nonlinear_arith)
        requires
            -0x8000_0000_0000_0000 <= a <= 0x7fff_ffff_ffff_ffff,
            -0x8000_0000_0000_0000 <= b <= 0x7fff_ffff_ffff_ffff,
    ;
}

/// The greatest common divisor of two machine integers, by Euclid's
/// algorithm. The result divides both arguments and is zero only when both
/// are zero.
fn gcd_u128(a: u128, b: u128) -> (g: u128)
    ensures
        (g == 0) <==> (a == 0 && b == 0),
        g != 0 ==> a as int % g as int == 0 && b as int % g as int == 0,
        g as nat == gcd_spec(a as nat, b as nat),
{
    let mut x = a;
    let mut y = b;
    while y != 0
        invariant
            forall|dd: int|
                1 <= dd && #[trigger] (x as int % dd) == 0 && y as int % dd == 0 ==> a as int % dd
                    == 0 && b as int % dd == 0,
            (x == 0 && y == 0) <==> (a == 0 && b == 0),
            gcd_spec(x as nat, y as nat) == gcd_spec(a as nat, b as nat),
        decreases y,
    {
        let r = x % y;
        proof {
            assert forall|dd: int|
                1 <= dd && #[trigger] (y as int % dd) == 0 && r as int % dd == 0 implies a as int
                % dd == 0 && b as int % dd == 0 by {
                lemma_div_transfer(dd, x as int, y as int);
            }
        }
        proof {
            assert(gcd_spec(x as nat, y as nat) == gcd_spec(y as nat, r as nat));
        }
        x = y;
        y = r;
    }
    proof {
        if x != 0 {
            lemma_mod_self_0(x as int);
            lemma_small_mod(0nat, x as nat);
        }
        assert(gcd_spec(x as nat, 0nat) == x as nat);
    }
    x
}

/// An exact fraction of two machine integers; the denominator is never
/// negative, and a zero denominator marks an undefined quantity.
#[derive(Clone, Copy, Debug, PartialEq, Eq, Structural)]
pub struct Frac {
    num: i64,
    den: i64,
}

impl View for Frac {
    type V = Rat;

    closed spec fn view(&self) -> Rat {
        Rat { n: self.num as int, d: self.den as int }
    }
}

/// Builds the reduced representative of the formal fraction `n0 / d0`, or
/// reports that none fits in the machine range.
fn reduce(n0: i128, d0: i128) -> (r: Option<Frac>)
    requires
        n0 > i128::MIN,
        d0 > i128::MIN,
    ensures
        r is Some ==> r.unwrap().wf() && rat_eq(r.unwrap()@, Rat { n: n0 as int, d: d0 as int }),
        r is Some && d0 != 0 ==> r.unwrap().pos(),
        -0x7fff_ffff_ffff_ffff <= n0 <= 0x7fff_ffff_ffff_ffff && -0x7fff_ffff_ffff_ffff <= d0
            <= 0x7fff_ffff_ffff_ffff ==> r is Some,
        r is Some <==> canon_ok(n0 as int, d0 as int),
        r is Some ==> r.unwrap()@ == canon(n0 as int, d0 as int),
{
    let (n1, d1): (i128, i128) = if d0 < 0 {
        (-n0, -d0)
    } else {
        (n0, d0)
    };
    let ghost s: int = if d0 < 0 {
        -1
    } else {
        1
    };
    let na: u128 = if n1 < 0 {
        (-n1) as u128
    } else {
        n1 as u128
    };
    let ghost t: int = if n1 < 0 {
        -1
    } else {
        1
    };
    proof {
        assert(n1 as int == t * (na as int)) by (nonlinear_arith)
            requires
                (n1 < 0 ==> t == -1 && na as int == -(n1 as int)) && (n1 >= 0 ==> t == 1
                    && na as int == n1 as int),
        ;
    }
    let da: u128 = d1 as u128;
    proof {
        assert(n1 as int == norm_n(n0 as int, d0 as int));
        assert(d1 as int == norm_d(n0 as int, d0 as int));
        assert(na as int == abs_i(n1 as int));
    }
    let g = gcd_u128(na, da);
    if g == 0 {
        proof {
            assert(canon(n0 as int, d0 as int) == Rat { n: 0, d: 0 });
        }
        return Some(Frac { num: 0, den: 0 });
    }
    let m2: u128 = na / g;
    let e2: u128 = da / g;
    proof {
        lemma_exact_div(na as int, g as int);
        lemma_exact_div(da as int, g as int);
        if na != 0 {
            lemma_divisor_le(na as int, g as int);
        }
        if da != 0 {
            lemma_divisor_le(da as int, g as int);
        }
        assert(n1 as int == g as int * (t * m2 as int)) by (nonlinear_arith)
            requires
                na as int == g as int * m2 as int,
                n1 as int == t * (na as int),
                t * t == 1,
        ;
        lemma_fundamental_div_mod_converse(n1 as int, g as int, t * m2 as int, 0);
        lemma_fundamental_div_mod_converse(d1 as int, g as int, e2 as int, 0);
        assert(canon(n0 as int, d0 as int) == Rat { n: t * m2 as int, d: e2 as int });
    }
    if m2 > i64::MAX as u128 || e2 > i64::MAX as u128 {
        proof {
            assert(!canon_ok(n0 as int, d0 as int)) by {
                if m2 > i64::MAX as u128 {
                    assert(abs_i(t * m2 as int) == m2 as int) by (nonlinear_arith)
                        requires
                            t * t == 1,
                            m2 as int >= 0,
                            t == 1 || t == -1,
                    ;
                }
            }
        }
        return None;
    }
    let num: i64 = if n1 < 0 {
        -(m2 as i64)
    } else {
        m2 as i64
    };
    let den: i64 = e2 as i64;
    proof {
        assert(n0 as int == s * t * (g as int * m2 as int) && d0 as int == s * (g as int
            * e2 as int)) by (nonlinear_arith)
            requires
                na as int == g as int * m2 as int,
                da as int == g as int * e2 as int,
                na as int == t * n1 as int,
                da as int == d1 as int,
                n1 as int == s * n0 as int,
                d1 as int == s * d0 as int,
                s * s == 1,
                t * t == 1,
        ;
        assert(num as int * d0 as int == n0 as int * den as int) by (nonlinear_arith)
            requires
                num as int == t * m2 as int,
                den as int == e2 as int,
                n0 as int == s * t * (g as int * m2 as int),
                d0 as int == s * (g as int * e2 as int),
        ;
        if d0 != 0 {
            assert(e2 as int > 0) by (nonlinear_arith)
                requires
                    da as int == g as int * e2 as int,
                    da as int > 0,
            ;
        }
        assert(num as int == t * m2 as int);
        assert(canon_ok(n0 as int, d0 as int)) by {
            assert(abs_i(t * m2 as int) == m2 as int) by (nonlinear_arith)
                requires
                    t * t == 1,
                    m2 as int >= 0,
                    t == 1 || t == -1,
            ;
        }
    }
    Some(Frac { num, den })
}

impl Frac {
    /// A denominator that is not negative; every constructor establishes it
    /// and every operation preserves it.
    pub open spec fn wf(self) -> bool {
        self@.d >= 0
    }

    /// A positive denominator: the fraction denotes a definite rational.
    pub open spec fn pos(self) -> bool {
        self@.d > 0
    }

    /// The fraction denoting a machine integer.
    pub fn from_int(i: i64) -> (r: Frac)
        ensures
            r@ == rat_int(i as int),
            r.pos(),
    {
        Frac { num: i, den: 1 }
    }

    /// The reduced fraction `num / den`; `None` only for the one numerator
    /// with no machine negation.
    pub fn new(num: i64, den: i64) -> (r: Option<Frac>)
        ensures
            r is Some ==> r.unwrap().wf() && rat_eq(
                r.unwrap()@,
                Rat { n: num as int, d: den as int },
            ),
            r is Some && den != 0 ==> r.unwrap().pos(),
            num != i64::MIN && den != i64::MIN ==> r is Some,
            r is Some <==> canon_ok(num as int, den as int),
            r is Some ==> r.unwrap()@ == canon(num as int, den as int),
    {
        reduce(num as i128, den as i128)
    }

    /// The stored numerator.
    pub fn numerator(&self) -> (r: i64)
        ensures
            r as int == self@.n,
    {
        self.num
    }

    /// The stored denominator.
    pub fn denominator(&self) -> (r: i64)
        ensures
            r as int == self@.d,
    {
        self.den
    }

    /// Whether the fraction denotes zero; meaningful for definite values.
    pub fn is_zero(&self) -> (r: bool)
        ensures
            r == (self@.n == 0),
    {
        self.num == 0
    }

    /// Value equality by cross multiplication.
    pub fn eq_frac(&self, o: &Frac) -> (r: bool)
        ensures
            r == rat_eq(self@, o@),
    {
        proof {
            lemma_prod_bound(self@.n, o@.d);
            lemma_prod_bound(o@.n, self@.d);
        }
        self.num as i128 * o.den as i128 == o.num as i128 * self.den as i128
    }

    /// Exact addition, up to reduction.
    pub fn add(&self, o: &Frac) -> (r: Option<Frac>)
        requires
            self.wf(),
            o.wf(),
        ensures
            r is Some ==> r.unwrap().wf() && rat_eq(r.unwrap()@, rat_add(self@, o@)),
            r is Some && self.pos() && o.pos() ==> r.unwrap().pos(),
            -0x7fff_ffff_ffff_ffff <= rat_add(self@, o@).n <= 0x7fff_ffff_ffff_ffff && rat_add(
                self@,
                o@,
            ).d <= 0x7fff_ffff_ffff_ffff ==> r is Some,
            r is Some <==> frac_add_ok(self@, o@),
            r is Some ==> r.unwrap()@ == frac_add(self@, o@),
    {
        proof {
            lemma_prod_bound_nd(self@.n, o@.d);
            lemma_prod_bound_nd(o@.n, self@.d);
            lemma_prod_bound_nd(self@.d, o@.d);
            if self.pos() && o.pos() {
                assert(self@.d * o@.d > 0) by (nonlinear_arith)
                    requires
                        self@.d > 0,
                        o@.d > 0,
                ;
            }
        }
        let n0: i128 = self.num as i128 * o.den as i128 + o.num as i128 * self.den as i128;
        let d0: i128 = self.den as i128 * o.den as i128;
        reduce(n0, d0)
    }

    /// Exact subtraction, up to reduction.
    pub fn sub(&self, o: &Frac) -> (r: Option<Frac>)
        requires
            self.wf(),
            o.wf(),
        ensures
            r is Some ==> r.unwrap().wf() && rat_eq(r.unwrap()@, rat_sub(self@, o@)),
            r is Some && self.pos() && o.pos() ==> r.unwrap().pos(),
            -0x7fff_ffff_ffff_ffff <= rat_sub(self@, o@).n <= 0x7fff_ffff_ffff_ffff && rat_sub(
                self@,
                o@,
            ).d <= 0x7fff_ffff_ffff_ffff ==> r is Some,
            r is Some <==> frac_sub_ok(self@, o@),
            r is Some ==> r.unwrap()@ == frac_sub(self@, o@),
    {
        proof {
            lemma_prod_bound_nd(self@.n, o@.d);
            lemma_prod_bound_nd(o@.n, self@.d);
            lemma_prod_bound_nd(self@.d, o@.d);
            if self.pos() && o.pos() {
                assert(self@.d * o@.d > 0) by (nonlinear_arith)
                    requires
                        self@.d > 0,
                        o@.d > 0,
                ;
            }
        }
        let n0: i128 = self.num as i128 * o.den as i128 - o.num as i128 * self.den as i128;
        let d0: i128 = self.den as i128 * o.den as i128;
        reduce(n0, d0)
    }

    /// Exact multiplication, up to reduction.
    pub fn mul(&self, o: &Frac) -> (r: Option<Frac>)
        requires
            self.wf(),
            o.wf(),
        ensures
            r is Some ==> r.unwrap().wf() && rat_eq(r.unwrap()@, rat_mul(self@, o@)),
            r is Some && self.pos() && o.pos() ==> r.unwrap().pos(),
            -0x7fff_ffff_ffff_ffff <= rat_mul(self@, o@).n <= 0x7fff_ffff_ffff_ffff && rat_mul(
                self@,
                o@,
            ).d <= 0x7fff_ffff_ffff_ffff ==> r is Some,
            r is Some <==> frac_mul_ok(self@, o@),
            r is Some ==> r.unwrap()@ == frac_mul(self@, o@),
    {
        proof {
            lemma_prod_bound(self@.n, o@.n);
            lemma_prod_bound_nd(self@.d, o@.d);
            if self.pos() && o.pos() {
                assert(self@.d * o@.d > 0) by (nonlinear_arith)
                    requires
                        self@.d > 0,
                        o@.d > 0,
                ;
            }
        }
        let n0: i128 = self.num as i128 * o.num as i128;
        let d0: i128 = self.den as i128 * o.den as i128;
        reduce(n0, d0)
    }

    /// Exact division, up to reduction. Dividing by a zero value yields an
    /// undefined (zero-denominator) fraction rather than an error, as a zero
    /// pivot does in elimination.
    pub fn div(&self, o: &Frac) -> (r: Option<Frac>)
        requires
            self.wf(),
            o.wf(),
        ensures
            r is Some ==> r.unwrap().wf() && rat_eq(r.unwrap()@, rat_div(self@, o@)),
            r is Some && self.pos() && o@.n != 0 ==> r.unwrap().pos(),
            -0x7fff_ffff_ffff_ffff <= rat_div(self@, o@).n <= 0x7fff_ffff_ffff_ffff
                && -0x7fff_ffff_ffff_ffff <= rat_div(self@, o@).d <= 0x7fff_ffff_ffff_ffff
                ==> r is Some,
            r is Some <==> frac_div_ok(self@, o@),
            r is Some ==> r.unwrap()@ == frac_div(self@, o@),
    {
        proof {
            lemma_prod_bound_nd(self@.n, o@.d);
            lemma_prod_bound_nd(o@.n, self@.d);
            if self.pos() && o@.n != 0 {
                assert(self@.d * o@.n != 0) by (nonlinear_arith)
                    requires
                        self@.d > 0,
                        o@.n != 0,
                ;
            }
        }
        let n0: i128 = self.num as i128 * o.den as i128;
        let d0: i128 = self.den as i128 * o.num as i128;
        reduce(n0, d0)
    }

    /// Exact negation, up to reduction.
    pub fn neg(&self) -> (r: Option<Frac>)
        requires
            self.wf(),
        ensures
            r is Some ==> r.unwrap().wf() && rat_eq(r.unwrap()@, rat_neg(self@)),
            r is Some && self.pos() ==> r.unwrap().pos(),
            self@.n != -0x8000_0000_0000_0000 ==> r is Some,
            r is Some <==> canon_ok(rat_neg(self@).n, rat_neg(self@).d),
            r is Some ==> r.unwrap()@ == canon(rat_neg(self@).n, rat_neg(self@).d),
    {
        reduce(-(self.num as i128), self.den as i128)
    }
}

} // verus!
