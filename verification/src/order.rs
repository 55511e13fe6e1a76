//! The linear filter in an arithmetic that rounds but keeps the order of its numbers, as
//! floating-point arithmetic does.

use crate::arithmetic::Arithmetic;
use crate::filter::SVF;
use crate::term;
use vstd::prelude::*;

verus! {

/// An order of the numbers of an arithmetic, with its zero and its one. What is no number is not
/// ordered, not even with itself.
#[verifier::reject_recursive_types(N)]
pub struct Order<N> {
    pub le: spec_fn(N, N) -> bool,
    pub zero: N,
    pub one: N,
}

impl<N> Order<N> {
    /// Whether `a` is a number.
    pub open spec fn has(self, a: N) -> bool {
        (self.le)(a, a)
    }

    /// Whether `a` and `b` are the same number.
    pub open spec fn same(self, a: N, b: N) -> bool {
        (self.le)(a, b) && (self.le)(b, a)
    }

    /// Whether `a` is a number that is not negative.
    pub open spec fn nonnegative(self, a: N) -> bool {
        self.has(a) && (self.le)(self.zero, a)
    }

    /// Whether `a` is one at the least.
    pub open spec fn at_least_one(self, a: N) -> bool {
        self.has(a) && (self.le)(self.one, a)
    }
}

/// Whether the sums, differences, products and quotients of the arithmetic `A` keep the order `o`,
/// however they round:
///
/// - what they make of no number is no number,
/// - a sum grows with its terms, a difference with its minuend, and falls with its subtrahend,
/// - a product grows with a factor where the other is not negative,
/// - sums and products of numbers that are not negative are not negative, and one plus such a
///   number is one at the least,
/// - a number that is not negative over one that is one at the least is not negative, and a matter
///   of the two numbers alone.
pub open spec fn keeps_order<A: Arithmetic>(o: Order<A::Num>) -> bool {
    &&& forall|v: A::Num| #[trigger]
        call_ensures(A::decimal, (1i32, 0u32), v) ==> o.same(o.one, v) && o.nonnegative(v)
    &&& forall|v: A::Num, w: A::Num| #[trigger]
        call_ensures(A::decimal, (1i32, 0u32), v) && #[trigger] call_ensures(
            A::decimal,
            (1i32, 0u32),
            w,
        ) ==> o.same(v, w)
    &&& forall|a: A::Num, b: A::Num, v: A::Num| #[trigger]
        call_ensures(A::plus, (a, b), v) && o.has(v) ==> {
            &&& o.has(a) && o.has(b)
            &&& o.nonnegative(a) && o.nonnegative(b) ==> o.nonnegative(v)
            &&& o.at_least_one(a) && o.nonnegative(b) ==> o.at_least_one(v)
        }
    &&& forall|a: A::Num, b: A::Num, v: A::Num| #[trigger]
        call_ensures(A::minus, (a, b), v) && o.has(v) ==> o.has(a) && o.has(b)
    &&& forall|a: A::Num, b: A::Num, v: A::Num| #[trigger]
        call_ensures(A::times, (a, b), v) && o.has(v) ==> {
            &&& o.has(a) && o.has(b)
            &&& o.nonnegative(a) && o.nonnegative(b) ==> o.nonnegative(v)
        }
    &&& forall|a: A::Num, b: A::Num, v: A::Num| #[trigger]
        call_ensures(A::over, (a, b), v) && o.has(v) ==> {
            &&& o.has(a) && o.has(b)
            &&& o.nonnegative(a) && o.at_least_one(b) ==> o.nonnegative(v)
        }
    &&& forall|a: A::Num, b: A::Num, v: A::Num, c: A::Num, d: A::Num, w: A::Num| #[trigger]
        call_ensures(A::plus, (a, b), v) && #[trigger] call_ensures(A::plus, (c, d), w) && o.has(v)
            && o.has(w) && (o.le)(a, c) && (o.le)(b, d) ==> (o.le)(v, w)
    &&& forall|a: A::Num, b: A::Num, v: A::Num, c: A::Num, d: A::Num, w: A::Num| #[trigger]
        call_ensures(A::minus, (a, b), v) && #[trigger] call_ensures(A::minus, (c, d), w) && o.has(v)
            && o.has(w) && (o.le)(a, c) && (o.le)(d, b) ==> (o.le)(v, w)
    &&& forall|a: A::Num, b: A::Num, v: A::Num, c: A::Num, d: A::Num, w: A::Num| #[trigger]
        call_ensures(A::times, (a, b), v) && #[trigger] call_ensures(A::times, (c, d), w) && o.has(v)
            && o.has(w) && o.nonnegative(a) && o.nonnegative(c) && o.same(a, c) && (o.le)(b, d) ==> (
        o.le)(v, w)
    &&& forall|a: A::Num, b: A::Num, v: A::Num, c: A::Num, d: A::Num, w: A::Num| #[trigger]
        call_ensures(A::over, (a, b), v) && #[trigger] call_ensures(A::over, (c, d), w) && o.has(v)
            && o.has(w) && o.same(a, c) && o.same(b, d) && o.nonnegative(a) && o.nonnegative(c)
            && o.at_least_one(b) && o.at_least_one(d) ==> o.same(v, w)
}

/// The denominator of the linear filter is one at the least, and the same number each time.
proof fn lemma_denominators<A: Arithmetic>(
    g: A::Num,
    k: A::Num,
    d1: A::Num,
    d2: A::Num,
    o: Order<A::Num>,
)
    requires
        keeps_order::<A>(o),
        o.nonnegative(g),
        o.nonnegative(k),
        term::yields::<A>(
            term::num(1).plus(term::val(g).times(term::val(g).plus(term::val(k)))),
            d1,
        ),
        term::yields::<A>(
            term::num(1).plus(term::val(g).times(term::val(g).plus(term::val(k)))),
            d2,
        ),
        o.has(d1),
        o.has(d2),
    ensures
        o.at_least_one(d1),
        (o.le)(d1, d2),
{
    let inner = term::val(g).plus(term::val(k));
    let product = term::val(g).times(inner);
    let (one1, q1) = term::lemma_sum::<A>(term::num(1), product, d1);
    let (one2, q2) = term::lemma_sum::<A>(term::num(1), product, d2);
    let (g1, r1) = term::lemma_product::<A>(term::val(g), inner, q1);
    let (g2, r2) = term::lemma_product::<A>(term::val(g), inner, q2);
    let (p1, k1) = term::lemma_sum::<A>(term::val(g), term::val(k), r1);
    let (p2, k2) = term::lemma_sum::<A>(term::val(g), term::val(k), r2);
    assert(g1 == g && g2 == g && p1 == g && p2 == g && k1 == k && k2 == k);
    assert(o.same(one1, one2));
    assert((o.le)(r1, r2));
    assert((o.le)(q1, q2));
}

/// The inverse of that denominator is not negative, and the same number each time.
proof fn lemma_inverses<A: Arithmetic>(
    g: A::Num,
    k: A::Num,
    i1: A::Num,
    i2: A::Num,
    o: Order<A::Num>,
)
    requires
        keeps_order::<A>(o),
        o.nonnegative(g),
        o.nonnegative(k),
        term::yields::<A>(
            term::num(1).over(
                term::num(1).plus(term::val(g).times(term::val(g).plus(term::val(k)))),
            ),
            i1,
        ),
        term::yields::<A>(
            term::num(1).over(
                term::num(1).plus(term::val(g).times(term::val(g).plus(term::val(k)))),
            ),
            i2,
        ),
        o.has(i1),
        o.has(i2),
    ensures
        o.nonnegative(i1),
        o.same(i1, i2),
{
    let denominator = term::num(1).plus(term::val(g).times(term::val(g).plus(term::val(k))));
    let (one1, d1) = term::lemma_quotient::<A>(term::num(1), denominator, i1);
    let (one2, d2) = term::lemma_quotient::<A>(term::num(1), denominator, i2);
    lemma_denominators::<A>(g, k, d1, d2, o);
    lemma_denominators::<A>(g, k, d2, d1, o);
    assert(o.same(one1, one2));
}

/// The outputs of the linear filter grow with its input, however its arithmetic rounds: as long as
/// it keeps the order of its numbers, a greater input gives outputs that are not smaller.
pub proof fn law_linear_outputs_grow_though_rounded<A: Arithmetic>(
    pre: SVF<A>,
    lower: A::Num,
    post1: SVF<A>,
    higher: A::Num,
    post2: SVF<A>,
    o: Order<A::Num>,
)
    requires
        keeps_order::<A>(o),
        o.nonnegative(pre.params.g),
        o.nonnegative(pre.params.res),
        (o.le)(lower, higher),
        SVF::<A>::linear_pass(pre, lower, post1),
        SVF::<A>::linear_pass(pre, higher, post2),
        forall|n: int| 0 <= n < 2 ==> o.has(#[trigger] post1.vout[n]),
        forall|n: int| 0 <= n < 2 ==> o.has(#[trigger] post2.vout[n]),
    ensures
        (o.le)(post1.vout[0], post2.vout[0]),
        (o.le)(post1.vout[1], post2.vout[1]),
{
    let g = pre.params.g;
    let k = pre.params.res;
    let gt = term::val(g);
    let kt = term::val(k);
    let s0 = term::val(pre.s[0]);
    let s1 = term::val(pre.s[1]);
    let inverse = term::num(1).over(term::num(1).plus(gt.times(gt.plus(kt))));
    let by_state = inverse.times(s0);
    let share = gt.times(inverse);
    let rise1 = term::val(lower).minus(s1);
    let rise2 = term::val(higher).minus(s1);
    assert(o.has(post1.vout[0]) && o.has(post2.vout[0]));
    assert(o.has(post1.vout[1]) && o.has(post2.vout[1]));
    let (a1, b1) = term::lemma_sum::<A>(by_state, share.times(rise1), post1.vout[0]);
    let (a2, b2) = term::lemma_sum::<A>(by_state, share.times(rise2), post2.vout[0]);
    let (i1, t1) = term::lemma_product::<A>(inverse, s0, a1);
    let (i2, t2) = term::lemma_product::<A>(inverse, s0, a2);
    lemma_inverses::<A>(g, k, i1, i2, o);
    lemma_inverses::<A>(g, k, i2, i1, o);
    assert(t1 == pre.s[0] && t2 == pre.s[0]);
    assert((o.le)(a1, a2));
    let (h1, y1) = term::lemma_product::<A>(share, rise1, b1);
    let (h2, y2) = term::lemma_product::<A>(share, rise2, b2);
    let (p1, j1) = term::lemma_product::<A>(gt, inverse, h1);
    let (p2, j2) = term::lemma_product::<A>(gt, inverse, h2);
    lemma_inverses::<A>(g, k, j1, j2, o);
    lemma_inverses::<A>(g, k, j2, j1, o);
    assert(p1 == g && p2 == g);
    assert(o.same(h1, h2) && o.nonnegative(h1) && o.nonnegative(h2));
    let (x1, u1) = term::lemma_difference::<A>(term::val(lower), s1, y1);
    let (x2, u2) = term::lemma_difference::<A>(term::val(higher), s1, y2);
    assert(x1 == lower && x2 == higher && u1 == pre.s[1] && u2 == pre.s[1]);
    assert((o.le)(y1, y2));
    assert((o.le)(b1, b2));
    assert((o.le)(post1.vout[0], post2.vout[0]));
    let (c1, d1) = term::lemma_sum::<A>(s1, gt.times(term::val(post1.vout[0])), post1.vout[1]);
    let (c2, d2) = term::lemma_sum::<A>(s1, gt.times(term::val(post2.vout[0])), post2.vout[1]);
    let (e1, f1) = term::lemma_product::<A>(gt, term::val(post1.vout[0]), d1);
    let (e2, f2) = term::lemma_product::<A>(gt, term::val(post2.vout[0]), d2);
    assert(c1 == pre.s[1] && c2 == pre.s[1] && e1 == g && e2 == g);
    assert(f1 == post1.vout[0] && f2 == post2.vout[0]);
    assert((o.le)(d1, d2));
}

} // verus!
