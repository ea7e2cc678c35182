//! The mathematical model of the scalar domain: formal fractions of
//! unbounded integers.
//!
//! A pair `(n, d)` with `d > 0` denotes the rational number `n / d`. A pair
//! with `d == 0` stands for an undefined quantity, the exact analogue of the
//! infinities that arise from dividing by a zero pivot; the pair `(0, 0)` is
//! wholly indeterminate. Two pairs denote the same value exactly when their
//! cross products agree, and all arithmetic is defined on the pairs
//! themselves, so every operation is total.

use vstd::prelude::*;

verus! {

/// A formal fraction of unbounded integers.
pub ghost struct Rat {
    pub n: int,
    pub d: int,
}

/// The fraction denoting the integer `i`.
pub open spec fn rat_int(i: int) -> Rat {
    Rat { n: i, d: 1 }
}

/// Value equality of formal fractions, by cross multiplication.
pub open spec fn rat_eq(a: Rat, b: Rat) -> bool {
    a.n * b.d == b.n * a.d
}

/// A fraction whose denominator is positive, as every well-formed machine
/// representative keeps it.
pub open spec fn rat_pos(a: Rat) -> bool {
    a.d > 0
}

/// A fraction that is not the wholly indeterminate pair `(0, 0)`.
pub open spec fn rat_proper(a: Rat) -> bool {
    a.n != 0 || a.d != 0
}

/// A definite, nonzero quantity.
pub open spec fn rat_nonzero(a: Rat) -> bool {
    a.n != 0 && a.d != 0
}

pub open spec fn rat_add(a: Rat, b: Rat) -> Rat {
    Rat { n: a.n * b.d + b.n * a.d, d: a.d * b.d }
}

pub open spec fn rat_sub(a: Rat, b: Rat) -> Rat {
    Rat { n: a.n * b.d - b.n * a.d, d: a.d * b.d }
}

pub open spec fn rat_mul(a: Rat, b: Rat) -> Rat {
    Rat { n: a.n * b.n, d: a.d * b.d }
}

pub open spec fn rat_div(a: Rat, b: Rat) -> Rat {
    Rat { n: a.n * b.d, d: a.d * b.n }
}

pub open spec fn rat_neg(a: Rat) -> Rat {
    Rat { n: -a.n, d: a.d }
}

/// Equality of fractions is reflexive and symmetric outright; it is
/// transitive whenever the middle value is not the indeterminate pair.
pub proof fn lemma_rat_eq_trans(a: Rat, b: Rat, c: Rat)
    requires
        rat_eq(a, b),
        rat_eq(b, c),
        rat_proper(b),
    ensures
        rat_eq(a, c),
{
    if b.d != 0 {
        assert(a.n * c.d == c.n * a.d) by (nonlinear_arith)
            requires
                a.n * b.d == b.n * a.d,
                b.n * c.d == c.n * b.d,
                b.d != 0,
        ;
    } else {
        assert(a.n * c.d == c.n * a.d) by (nonlinear_arith)
            requires
                a.n * b.d == b.n * a.d,
                b.n * c.d == c.n * b.d,
                b.d == 0,
                b.n != 0,
        ;
    }
}

/// Addition respects value equality.
pub proof fn lemma_rat_add_congr(a1: Rat, a2: Rat, b1: Rat, b2: Rat)
    requires
        rat_eq(a1, a2),
        rat_eq(b1, b2),
    ensures
        rat_eq(rat_add(a1, b1), rat_add(a2, b2)),
{
    assert((a1.n * b1.d) * (a2.d * b2.d) == (a2.n * b2.d) * (a1.d * b1.d)) by (nonlinear_arith)
        requires
            a1.n * a2.d == a2.n * a1.d,
    ;
    assert((b1.n * a1.d) * (a2.d * b2.d) == (b2.n * a2.d) * (a1.d * b1.d)) by (nonlinear_arith)
        requires
            b1.n * b2.d == b2.n * b1.d,
    ;
    assert((a1.n * b1.d + b1.n * a1.d) * (a2.d * b2.d) == (a1.n * b1.d) * (a2.d * b2.d) + (b1.n
        * a1.d) * (a2.d * b2.d)) by (nonlinear_arith);
    assert((a2.n * b2.d + b2.n * a2.d) * (a1.d * b1.d) == (a2.n * b2.d) * (a1.d * b1.d) + (b2.n
        * a2.d) * (a1.d * b1.d)) by (nonlinear_arith);
}

/// Subtraction respects value equality.
pub proof fn lemma_rat_sub_congr(a1: Rat, a2: Rat, b1: Rat, b2: Rat)
    requires
        rat_eq(a1, a2),
        rat_eq(b1, b2),
    ensures
        rat_eq(rat_sub(a1, b1), rat_sub(a2, b2)),
{
    assert((a1.n * b1.d) * (a2.d * b2.d) == (a2.n * b2.d) * (a1.d * b1.d)) by (nonlinear_arith)
        requires
            a1.n * a2.d == a2.n * a1.d,
    ;
    assert((b1.n * a1.d) * (a2.d * b2.d) == (b2.n * a2.d) * (a1.d * b1.d)) by (nonlinear_arith)
        requires
            b1.n * b2.d == b2.n * b1.d,
    ;
    assert((a1.n * b1.d - b1.n * a1.d) * (a2.d * b2.d) == (a1.n * b1.d) * (a2.d * b2.d) - (b1.n
        * a1.d) * (a2.d * b2.d)) by (nonlinear_arith);
    assert((a2.n * b2.d - b2.n * a2.d) * (a1.d * b1.d) == (a2.n * b2.d) * (a1.d * b1.d) - (b2.n
        * a2.d) * (a1.d * b1.d)) by (nonlinear_arith);
}

/// Multiplication respects value equality.
pub proof fn lemma_rat_mul_congr(a1: Rat, a2: Rat, b1: Rat, b2: Rat)
    requires
        rat_eq(a1, a2),
        rat_eq(b1, b2),
    ensures
        rat_eq(rat_mul(a1, b1), rat_mul(a2, b2)),
{
    assert((a1.n * b1.n) * (a2.d * b2.d) == (a2.n * b2.n) * (a1.d * b1.d)) by (nonlinear_arith)
        requires
            a1.n * a2.d == a2.n * a1.d,
            b1.n * b2.d == b2.n * b1.d,
    ;
}

/// Division respects value equality.
pub proof fn lemma_rat_div_congr(a1: Rat, a2: Rat, b1: Rat, b2: Rat)
    requires
        rat_eq(a1, a2),
        rat_eq(b1, b2),
    ensures
        rat_eq(rat_div(a1, b1), rat_div(a2, b2)),
{
    assert((a1.n * b1.d) * (a2.d * b2.n) == (a2.n * b2.d) * (a1.d * b1.n)) by (nonlinear_arith)
        requires
            a1.n * a2.d == a2.n * a1.d,
            b1.n * b2.d == b2.n * b1.d,
    ;
}

/// A value equal to a definite nonzero value, with a positive denominator,
/// is itself nonzero.
pub proof fn lemma_rat_eq_nonzero(a: Rat, b: Rat)
    requires
        rat_eq(a, b),
        rat_pos(a),
        rat_nonzero(b),
    ensures
        rat_nonzero(a),
{
    assert(a.n != 0) by (nonlinear_arith)
        requires
            a.n * b.d == b.n * a.d,
            a.d > 0,
            b.n != 0,
            b.d != 0,
    ;
}

/// Two representatives of one definite quantity are zero together.
pub proof fn lemma_rat_eq_zero_iff(a: Rat, b: Rat)
    requires
        rat_eq(a, b),
        a.d > 0,
        b.d != 0,
    ensures
        (a.n == 0) <==> (b.n == 0),
{
    assert((a.n == 0) <==> (b.n == 0)) by (nonlinear_arith)
        requires
            a.n * b.d == b.n * a.d,
            a.d > 0,
            b.d != 0,
    ;
}

/// Carries a computed product over to reference operands: a value of
/// `x * y` is a value of `gx * gy` whenever `x` and `gx`, and `y` and `gy`,
/// denote the same quantities.
pub proof fn lemma_mul_lift(v: Rat, x: Rat, y: Rat, gx: Rat, gy: Rat)
    requires
        rat_eq(v, rat_mul(x, y)),
        rat_eq(x, gx),
        rat_eq(y, gy),
        x.d > 0,
        y.d > 0,
    ensures
        rat_eq(v, rat_mul(gx, gy)),
{
    lemma_rat_mul_congr(x, gx, y, gy);
    assert(rat_mul(x, y).d > 0) by (nonlinear_arith)
        requires
            x.d > 0,
            y.d > 0,
    ;
    lemma_rat_eq_trans(v, rat_mul(x, y), rat_mul(gx, gy));
}

/// Carries a computed sum over to reference operands.
pub proof fn lemma_add_lift(v: Rat, x: Rat, y: Rat, gx: Rat, gy: Rat)
    requires
        rat_eq(v, rat_add(x, y)),
        rat_eq(x, gx),
        rat_eq(y, gy),
        x.d > 0,
        y.d > 0,
    ensures
        rat_eq(v, rat_add(gx, gy)),
{
    lemma_rat_add_congr(x, gx, y, gy);
    assert(rat_add(x, y).d > 0) by (nonlinear_arith)
        requires
            x.d > 0,
            y.d > 0,
    ;
    lemma_rat_eq_trans(v, rat_add(x, y), rat_add(gx, gy));
}

/// Carries a computed difference over to reference operands.
pub proof fn lemma_sub_lift(v: Rat, x: Rat, y: Rat, gx: Rat, gy: Rat)
    requires
        rat_eq(v, rat_sub(x, y)),
        rat_eq(x, gx),
        rat_eq(y, gy),
        x.d > 0,
        y.d > 0,
    ensures
        rat_eq(v, rat_sub(gx, gy)),
{
    lemma_rat_sub_congr(x, gx, y, gy);
    assert(rat_sub(x, y).d > 0) by (nonlinear_arith)
        requires
            x.d > 0,
            y.d > 0,
    ;
    lemma_rat_eq_trans(v, rat_sub(x, y), rat_sub(gx, gy));
}

/// Carries a computed quotient over to reference operands; the divisor must
/// denote a nonzero quantity.
pub proof fn lemma_div_lift(v: Rat, x: Rat, y: Rat, gx: Rat, gy: Rat)
    requires
        rat_eq(v, rat_div(x, y)),
        rat_eq(x, gx),
        rat_eq(y, gy),
        x.d > 0,
        y.d > 0,
        y.n != 0,
    ensures
        rat_eq(v, rat_div(gx, gy)),
{
    lemma_rat_div_congr(x, gx, y, gy);
    assert(rat_div(x, y).d != 0) by (nonlinear_arith)
        requires
            x.d > 0,
            y.n != 0,
    ;
    lemma_rat_eq_trans(v, rat_div(x, y), rat_div(gx, gy));
}

/// The running sum of a sequence of fractions, accumulated left to right.
pub open spec fn rat_sum(s: Seq<Rat>) -> Rat
    decreases s.len(),
{
    if s.len() == 0 {
        rat_int(0)
    } else {
        rat_add(rat_sum(s.drop_last()), s.last())
    }
}

/// The dot product of two sequences of fractions, accumulated left to right
/// over the shorter length.
pub open spec fn rat_dot(x: Seq<Rat>, y: Seq<Rat>) -> Rat
    decreases x.len(),
{
    if x.len() == 0 || y.len() == 0 {
        rat_int(0)
    } else {
        rat_add(rat_dot(x.drop_last(), y.drop_last()), rat_mul(x.last(), y.last()))
    }
}

/// The running product of a sequence of fractions.
pub open spec fn rat_prod(s: Seq<Rat>) -> Rat
    decreases s.len(),
{
    if s.len() == 0 {
        rat_int(1)
    } else {
        rat_mul(rat_prod(s.drop_last()), s.last())
    }
}

/// The dot product of definite vectors is definite.
pub proof fn lemma_rat_dot_pos(x: Seq<Rat>, y: Seq<Rat>)
    requires
        forall|j: int| 0 <= j < x.len() ==> (#[trigger] x[j]).d > 0,
        forall|j: int| 0 <= j < y.len() ==> (#[trigger] y[j]).d > 0,
    ensures
        rat_dot(x, y).d > 0,
    decreases x.len(),
{
    if x.len() == 0 || y.len() == 0 {
    } else {
        lemma_rat_dot_pos(x.drop_last(), y.drop_last());
        let d = rat_dot(x.drop_last(), y.drop_last());
        assert(d.d * (x.last().d * y.last().d) > 0) by (nonlinear_arith)
            requires
                d.d > 0,
                x.last().d > 0,
                y.last().d > 0,
        ;
    }
}

/// The dot product respects value equality of both operands.
pub proof fn lemma_rat_dot_congr(x1: Seq<Rat>, y1: Seq<Rat>, x2: Seq<Rat>, y2: Seq<Rat>)
    requires
        x1.len() == x2.len(),
        y1.len() == y2.len(),
        forall|j: int| 0 <= j < x1.len() ==> rat_eq(#[trigger] x1[j], x2[j]),
        forall|j: int| 0 <= j < y1.len() ==> rat_eq(#[trigger] y1[j], y2[j]),
    ensures
        rat_eq(rat_dot(x1, y1), rat_dot(x2, y2)),
    decreases x1.len(),
{
    if x1.len() == 0 || y1.len() == 0 {
    } else {
        lemma_rat_dot_congr(x1.drop_last(), y1.drop_last(), x2.drop_last(), y2.drop_last());
        lemma_rat_mul_congr(x1.last(), x2.last(), y1.last(), y2.last());
        lemma_rat_add_congr(
            rat_dot(x1.drop_last(), y1.drop_last()),
            rat_dot(x2.drop_last(), y2.drop_last()),
            rat_mul(x1.last(), y1.last()),
            rat_mul(x2.last(), y2.last()),
        );
    }
}

/// A dot product against a vector of zeros denotes zero.
pub proof fn lemma_rat_dot_zero_left(w: Seq<Rat>, z: Seq<Rat>)
    requires
        forall|j: int| 0 <= j < w.len() ==> #[trigger] w[j] == rat_int(0),
    ensures
        rat_eq(rat_dot(w, z), rat_int(0)),
    decreases w.len(),
{
    if w.len() == 0 || z.len() == 0 {
    } else {
        lemma_rat_dot_zero_left(w.drop_last(), z.drop_last());
        assert(w.last() == rat_int(0));
        assert(rat_eq(rat_mul(w.last(), z.last()), rat_int(0))) by (nonlinear_arith)
            requires
                w.last() == rat_int(0),
        ;
        lemma_rat_add_congr(
            rat_dot(w.drop_last(), z.drop_last()),
            rat_int(0),
            rat_mul(w.last(), z.last()),
            rat_int(0),
        );
    }
}

/// A dot product with a vector of zeros on the right denotes zero.
pub proof fn lemma_rat_dot_zero_right(w: Seq<Rat>, z: Seq<Rat>)
    requires
        forall|j: int| 0 <= j < z.len() ==> #[trigger] z[j] == rat_int(0),
    ensures
        rat_eq(rat_dot(w, z), rat_int(0)),
    decreases w.len(),
{
    if w.len() == 0 || z.len() == 0 {
    } else {
        lemma_rat_dot_zero_right(w.drop_last(), z.drop_last());
        assert(z.last() == rat_int(0));
        assert(rat_eq(rat_mul(w.last(), z.last()), rat_int(0))) by (nonlinear_arith)
            requires
                z.last() == rat_int(0),
        ;
        lemma_rat_add_congr(
            rat_dot(w.drop_last(), z.drop_last()),
            rat_int(0),
            rat_mul(w.last(), z.last()),
            rat_int(0),
        );
    }
}

/// Multiplication distributes over addition, up to value equality.
#[verifier::rlimit(100)]
pub proof fn lemma_rat_mul_add_dist(a: Rat, b: Rat, c: Rat)
    ensures
        rat_eq(rat_mul(rat_add(a, b), c), rat_add(rat_mul(a, c), rat_mul(b, c))),
{
    assert(((a.n * b.d) * c.n) * ((a.d * c.d) * (b.d * c.d)) == ((a.n * c.n) * (b.d * c.d)) * ((
    a.d * b.d) * c.d)) by (nonlinear_arith);
    assert(((b.n * a.d) * c.n) * ((a.d * c.d) * (b.d * c.d)) == ((b.n * c.n) * (a.d * c.d)) * ((
    a.d * b.d) * c.d)) by (nonlinear_arith);
    assert(((a.n * b.d + b.n * a.d) * c.n) * ((a.d * c.d) * (b.d * c.d)) == ((a.n * b.d) * c.n)
        * ((a.d * c.d) * (b.d * c.d)) + ((b.n * a.d) * c.n) * ((a.d * c.d) * (b.d * c.d)))
        by (nonlinear_arith);
    assert(((a.n * c.n) * (b.d * c.d) + (b.n * c.n) * (a.d * c.d)) * ((a.d * b.d) * c.d) == ((a.n
        * c.n) * (b.d * c.d)) * ((a.d * b.d) * c.d) + ((b.n * c.n) * (a.d * c.d)) * ((a.d * b.d)
        * c.d)) by (nonlinear_arith);
}

/// Multiplication from the left distributes over addition, up to value
/// equality.
#[verifier::rlimit(100)]
pub proof fn lemma_rat_mul_add_dist_left(c: Rat, a: Rat, b: Rat)
    ensures
        rat_eq(rat_mul(c, rat_add(a, b)), rat_add(rat_mul(c, a), rat_mul(c, b))),
{
    assert((c.n * (a.n * b.d)) * ((c.d * a.d) * (c.d * b.d)) == ((c.n * a.n) * (c.d * b.d)) * (
    c.d * (a.d * b.d))) by (nonlinear_arith);
    assert((c.n * (b.n * a.d)) * ((c.d * a.d) * (c.d * b.d)) == ((c.n * b.n) * (c.d * a.d)) * (
    c.d * (a.d * b.d))) by (nonlinear_arith);
    assert((c.n * (a.n * b.d + b.n * a.d)) * ((c.d * a.d) * (c.d * b.d)) == (c.n * (a.n * b.d))
        * ((c.d * a.d) * (c.d * b.d)) + (c.n * (b.n * a.d)) * ((c.d * a.d) * (c.d * b.d)))
        by (nonlinear_arith);
    assert(((c.n * a.n) * (c.d * b.d) + (c.n * b.n) * (c.d * a.d)) * (c.d * (a.d * b.d)) == ((c.n
        * a.n) * (c.d * b.d)) * (c.d * (a.d * b.d)) + ((c.n * b.n) * (c.d * a.d)) * (c.d * (a.d
        * b.d))) by (nonlinear_arith);
}

/// Rearranging two sums of two terms: the formal pairs are equal outright.
#[verifier::rlimit(100)]
pub proof fn lemma_rat_add_shuffle(p: Rat, q: Rat, r: Rat, t: Rat)
    ensures
        rat_add(rat_add(p, q), rat_add(r, t)) == rat_add(rat_add(p, r), rat_add(q, t)),
{
    assert((p.n * q.d + q.n * p.d) * (r.d * t.d) == (p.n * q.d) * (r.d * t.d) + (q.n * p.d) * (
    r.d * t.d)) by (nonlinear_arith);
    assert((r.n * t.d + t.n * r.d) * (p.d * q.d) == (r.n * t.d) * (p.d * q.d) + (t.n * r.d) * (
    p.d * q.d)) by (nonlinear_arith);
    assert((p.n * r.d + r.n * p.d) * (q.d * t.d) == (p.n * r.d) * (q.d * t.d) + (r.n * p.d) * (
    q.d * t.d)) by (nonlinear_arith);
    assert((q.n * t.d + t.n * q.d) * (p.d * r.d) == (q.n * t.d) * (p.d * r.d) + (t.n * q.d) * (
    p.d * r.d)) by (nonlinear_arith);
    assert((p.n * q.d) * (r.d * t.d) == (p.n * r.d) * (q.d * t.d)) by (nonlinear_arith);
    assert((q.n * p.d) * (r.d * t.d) == (q.n * t.d) * (p.d * r.d)) by (nonlinear_arith);
    assert((r.n * t.d) * (p.d * q.d) == (r.n * p.d) * (q.d * t.d)) by (nonlinear_arith);
    assert((t.n * r.d) * (p.d * q.d) == (t.n * q.d) * (p.d * r.d)) by (nonlinear_arith);
    assert((p.d * q.d) * (r.d * t.d) == (p.d * r.d) * (q.d * t.d)) by (nonlinear_arith);
}

/// Multiplication of formal pairs is associative outright.
pub proof fn lemma_rat_mul_assoc(a: Rat, b: Rat, c: Rat)
    ensures
        rat_mul(rat_mul(a, b), c) == rat_mul(a, rat_mul(b, c)),
{
    assert((a.n * b.n) * c.n == a.n * (b.n * c.n)) by (nonlinear_arith);
    assert((a.d * b.d) * c.d == a.d * (b.d * c.d)) by (nonlinear_arith);
}

/// The dot product is additive in its left operand, taken pointwise.
pub proof fn lemma_rat_dot_add_left(ws: Seq<Rat>, w1: Seq<Rat>, w2: Seq<Rat>, z: Seq<Rat>)
    requires
        ws.len() == w1.len(),
        ws.len() == w2.len(),
        ws.len() == z.len(),
        forall|j: int| 0 <= j < ws.len() ==> #[trigger] ws[j] == rat_add(w1[j], w2[j]),
    ensures
        rat_eq(rat_dot(ws, z), rat_add(rat_dot(w1, z), rat_dot(w2, z))),
    decreases ws.len(),
{
    if ws.len() == 0 {
        assert(rat_dot(ws, z) == rat_int(0));
        assert(rat_dot(w1, z) == rat_int(0));
        assert(rat_dot(w2, z) == rat_int(0));
    } else {
        assert forall|j: int|
            0 <= j < ws.len() - 1 implies #[trigger] ws.drop_last()[j] == rat_add(
            w1.drop_last()[j],
            w2.drop_last()[j],
        ) by {
            assert(ws[j] == rat_add(w1[j], w2[j]));
        }
        lemma_rat_dot_add_left(ws.drop_last(), w1.drop_last(), w2.drop_last(), z.drop_last());
        lemma_rat_mul_add_dist(w1.last(), w2.last(), z.last());
        let a1 = rat_dot(w1.drop_last(), z.drop_last());
        let a2 = rat_dot(w2.drop_last(), z.drop_last());
        let b1 = rat_mul(w1.last(), z.last());
        let b2 = rat_mul(w2.last(), z.last());
        assert(ws.last() == rat_add(w1.last(), w2.last()));
        assert(rat_dot(ws, z) == rat_add(
            rat_dot(ws.drop_last(), z.drop_last()),
            rat_mul(ws.last(), z.last()),
        ));
        assert(rat_dot(w1, z) == rat_add(a1, b1));
        assert(rat_dot(w2, z) == rat_add(a2, b2));
        lemma_rat_add_congr(
            rat_dot(ws.drop_last(), z.drop_last()),
            rat_add(a1, a2),
            rat_mul(ws.last(), z.last()),
            rat_add(b1, b2),
        );
        lemma_rat_add_shuffle(a1, a2, b1, b2);
        assert(rat_add(rat_add(a1, a2), rat_add(b1, b2)) == rat_add(
            rat_add(a1, b1),
            rat_add(a2, b2),
        ));
        assert(rat_eq(rat_dot(ws, z), rat_add(rat_add(a1, b1), rat_add(a2, b2))));
    }
}

/// A common scalar factor moves out of a dot product.
pub proof fn lemma_rat_dot_scale(u: Seq<Rat>, c: Rat, y: Seq<Rat>, z: Seq<Rat>)
    requires
        u.len() == y.len(),
        u.len() == z.len(),
        forall|j: int| 0 <= j < u.len() ==> #[trigger] u[j] == rat_mul(c, y[j]),
        c.d > 0,
        forall|j: int| 0 <= j < y.len() ==> (#[trigger] y[j]).d > 0,
        forall|j: int| 0 <= j < z.len() ==> (#[trigger] z[j]).d > 0,
    ensures
        rat_eq(rat_dot(u, z), rat_mul(c, rat_dot(y, z))),
    decreases u.len(),
{
    if u.len() == 0 {
        assert(rat_dot(u, z) == rat_int(0));
        assert(rat_dot(y, z) == rat_int(0));
        assert(rat_eq(rat_int(0), rat_mul(c, rat_int(0)))) by (nonlinear_arith);
    } else {
        assert forall|j: int|
            0 <= j < u.len() - 1 implies #[trigger] u.drop_last()[j] == rat_mul(
            c,
            y.drop_last()[j],
        ) by {
            assert(u[j] == rat_mul(c, y[j]));
        }
        lemma_rat_dot_scale(u.drop_last(), c, y.drop_last(), z.drop_last());
        let dp = rat_dot(y.drop_last(), z.drop_last());
        let mm = rat_mul(y.last(), z.last());
        assert(u.last() == rat_mul(c, y.last()));
        lemma_rat_mul_assoc(c, y.last(), z.last());
        assert(rat_mul(rat_mul(c, y.last()), z.last()) == rat_mul(c, mm));
        lemma_rat_add_congr(
            rat_dot(u.drop_last(), z.drop_last()),
            rat_mul(c, dp),
            rat_mul(u.last(), z.last()),
            rat_mul(c, mm),
        );
        lemma_rat_mul_add_dist_left(c, dp, mm);
        lemma_rat_dot_pos(y.drop_last(), z.drop_last());
        assert((rat_mul(c, dp).d > 0 && rat_mul(c, mm).d > 0) && rat_add(
            rat_mul(c, dp),
            rat_mul(c, mm),
        ).d > 0) by (nonlinear_arith)
            requires
                c.d > 0,
                dp.d > 0,
                y.len() >= 1,
                y.last().d > 0,
                z.last().d > 0,
                mm == rat_mul(y.last(), z.last()),
        ;
        lemma_rat_eq_trans(
            rat_dot(u, z),
            rat_add(rat_mul(c, dp), rat_mul(c, mm)),
            rat_mul(c, rat_add(dp, mm)),
        );
    }
}

} // verus!
