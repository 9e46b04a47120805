//! What the fit behind the velocity is: the weighted least-squares line.
//!
//! The laws here are on the numbers themselves, before any rounding.

use vstd::prelude::*;

verus! {

/// A position at a time, with its weight.
pub ghost struct Observation {
    pub w: real,
    pub t: real,
    pub x: real,
}

/// The sums of [`weighted_sums`](crate::momentum::weighted_sums), of one axis.
pub ghost struct ExactSums {
    pub w: real,
    pub wt: real,
    pub wt2: real,
    pub wx: real,
    pub wtx: real,
}

pub open spec fn exact_sums(obs: Seq<Observation>) -> ExactSums
    decreases obs.len(),
{
    if obs.len() == 0 {
        ExactSums { w: 0real, wt: 0real, wt2: 0real, wx: 0real, wtx: 0real }
    } else {
        let s = exact_sums(obs.drop_last());
        let o = obs.last();
        ExactSums {
            w: s.w + o.w,
            wt: s.wt + o.w * o.t,
            wt2: s.wt2 + o.w * o.t * o.t,
            wx: s.wx + o.w * o.x,
            wtx: s.wtx + o.w * o.t * o.x,
        }
    }
}

impl ExactSums {
    /// What the slope is divided by.
    pub open spec fn denominator(self) -> real {
        self.w * self.wt2 - self.wt * self.wt
    }

    /// The velocity of the fit, as
    /// [`fitted_velocity`](crate::momentum::fitted_velocity) computes it.
    pub open spec fn slope(self) -> real {
        (self.w * self.wtx - self.wt * self.wx) / self.denominator()
    }

    /// The position of the fit at time zero.
    pub open spec fn intercept(self) -> real {
        (self.wx - self.slope() * self.wt) / self.w
    }
}

/// The weighted squares of what a line misses the observations by.
pub open spec fn misfit(obs: Seq<Observation>, a: real, v: real) -> real
    decreases obs.len(),
{
    if obs.len() == 0 {
        0real
    } else {
        let o = obs.last();
        let r = o.x - a - v * o.t;
        misfit(obs.drop_last(), a, v) + o.w * (r * r)
    }
}

/// Every observation counts.
pub open spec fn all_positive(obs: Seq<Observation>) -> bool {
    forall|i: int| 0 <= i < obs.len() ==> (#[trigger] obs[i]).w > 0real
}

/// The weighted squares of a line by itself.
spec fn spread(obs: Seq<Observation>, a: real, v: real) -> real
    decreases obs.len(),
{
    if obs.len() == 0 {
        0real
    } else {
        let o = obs.last();
        let e = a + v * o.t;
        spread(obs.drop_last(), a, v) + o.w * (e * e)
    }
}

/// The spread over the sums.
spec fn form(s: ExactSums, a: real, v: real) -> real {
    (a * a) * s.w + 2real * ((a * v) * s.wt) + (v * v) * s.wt2
}

// The few rules of algebra that the identities below are made of.

proof fn lemma_assoc(a: real, b: real, c: real)
    ensures
        (a * b) * c == a * (b * c),
{
    assert((a * b) * c == a * (b * c)) by (nonlinear_arith);
}

proof fn lemma_swap(a: real, b: real)
    ensures
        a * b == b * a,
{
    assert(a * b == b * a) by (nonlinear_arith);
}

/// A factor moves inside a product.
proof fn lemma_inside(w: real, a: real, b: real)
    ensures
        w * (a * b) == a * (w * b),
{
    lemma_assoc(w, a, b);
    lemma_swap(w, a);
    lemma_assoc(a, w, b);
}

/// The square of a product is the product of the squares.
proof fn lemma_square_of_product(a: real, b: real)
    ensures
        (a * b) * (a * b) == (a * a) * (b * b),
{
    lemma_assoc(a, b, a * b);
    lemma_inside(b, a, b);
    lemma_assoc(a, a, b * b);
}

proof fn lemma_sum(w: real, a: real, b: real)
    ensures
        w * (a + b) == w * a + w * b,
        w * (a - b) == w * a - w * b,
{
    assert(w * (a + b) == w * a + w * b) by (nonlinear_arith);
    assert(w * (a - b) == w * a - w * b) by (nonlinear_arith);
}

proof fn lemma_square_of_sum(a: real, b: real)
    ensures
        (a + b) * (a + b) == a * a + 2real * (a * b) + b * b,
        (a - b) * (a - b) == a * a - 2real * (a * b) + b * b,
{
    assert((a + b) * (a + b) == a * a + 2real * (a * b) + b * b) by (nonlinear_arith);
    assert((a - b) * (a - b) == a * a - 2real * (a * b) + b * b) by (nonlinear_arith);
}

proof fn lemma_twice(w: real, a: real)
    ensures
        w * (2real * a) == 2real * (w * a),
{
    lemma_inside(w, 2real, a);
}

proof fn lemma_spread_term(o: Observation, a: real, v: real)
    ensures
        ({
            let e = a + v * o.t;
            o.w * (e * e) == (a * a) * o.w + 2real * ((a * v) * (o.w * o.t)) + (v * v) * (o.w * o.t
                * o.t)
        }),
{
    let vt = v * o.t;
    let e = a + vt;
    let w = o.w;
    lemma_square_of_sum(a, vt);
    lemma_sum(w, a * a + 2real * (a * vt), vt * vt);
    lemma_sum(w, a * a, 2real * (a * vt));
    lemma_twice(w, a * vt);
    lemma_swap(w, a * a);
    lemma_assoc(a, v, o.t);
    lemma_inside(w, a * v, o.t);
    lemma_square_of_product(v, o.t);
    lemma_inside(w, v * v, o.t * o.t);
    lemma_assoc(w, o.t, o.t);
}

proof fn lemma_spread(obs: Seq<Observation>, a: real, v: real)
    requires
        all_positive(obs),
    ensures
        spread(obs, a, v) == form(exact_sums(obs), a, v),
        spread(obs, a, v) >= 0real,
    decreases obs.len(),
{
    if obs.len() == 0 {
        let p = a * a;
        let q = a * v;
        let r = v * v;
        assert(p * 0real + 2real * (q * 0real) + r * 0real == 0real) by (nonlinear_arith);
    } else {
        let rest = obs.drop_last();
        let o = obs.last();
        assert forall|i: int| 0 <= i < rest.len() implies (#[trigger] rest[i]).w > 0real by {
            assert(obs[i].w > 0real);
        }
        lemma_spread(rest, a, v);
        lemma_spread_term(o, a, v);
        let b = exact_sums(rest);
        let e = a + v * o.t;
        let w = o.w;
        assert(obs[obs.len() - 1].w > 0real);
        assert(w * (e * e) >= 0real) by (nonlinear_arith)
            requires
                w > 0real,
        ;
        lemma_form_adds(b, o, a, v);
    }
}

proof fn lemma_form_adds(b: ExactSums, o: Observation, a: real, v: real)
    ensures
        ({
            let wt = o.w * o.t;
            let s = ExactSums { w: b.w + o.w, wt: b.wt + wt, wt2: b.wt2 + wt * o.t, ..b };
            form(s, a, v) == form(b, a, v) + (a * a) * o.w + 2real * ((a * v) * wt) + (v * v) * (wt
                * o.t)
        }),
{
    let p = a * a;
    let q = a * v;
    let r = v * v;
    let x = o.w;
    let y = o.w * o.t;
    let z = y * o.t;
    assert(p * (b.w + x) == p * b.w + p * x) by (nonlinear_arith);
    assert(q * (b.wt + y) == q * b.wt + q * y) by (nonlinear_arith);
    assert(r * (b.wt2 + z) == r * b.wt2 + r * z) by (nonlinear_arith);
}

/// What the residuals of a line add up to, by themselves and with the times.
spec fn residual(s: ExactSums, a: real, v: real) -> real {
    s.wx - a * s.w - v * s.wt
}

spec fn residual_moment(s: ExactSums, a: real, v: real) -> real {
    s.wtx - a * s.wt - v * s.wt2
}

/// One observation's part in [`lemma_shift`].
proof fn lemma_shift_term(o: Observation, a: real, v: real, da: real, dv: real)
    ensures
        ({
            let r = o.x - a - v * o.t;
            let r1 = o.x - (a + da) - (v + dv) * o.t;
            let e = da + dv * o.t;
            let wt = o.w * o.t;
            let r0 = o.w * o.x - a * o.w - v * wt;
            let m0 = wt * o.x - a * wt - v * (wt * o.t);
            o.w * (r1 * r1) == o.w * (r * r) - 2real * (da * r0 + dv * m0) + o.w * (e * e)
        }),
{
    let t = o.t;
    let w = o.w;
    let x = o.x;
    let vt = v * t;
    let dvt = dv * t;
    let r = x - a - vt;
    let e = da + dvt;
    lemma_swap(v + dv, t);
    lemma_sum(t, v, dv);
    lemma_swap(t, v);
    lemma_swap(t, dv);
    let r1 = x - (a + da) - (v + dv) * t;
    assert(r1 == r - e);
    lemma_square_of_sum(r, e);
    lemma_sum(w, r * r - 2real * (r * e), e * e);
    lemma_sum(w, r * r, 2real * (r * e));
    lemma_twice(w, r * e);
    // The residual, weighted, by itself and with the time.
    let wt = w * t;
    let wr = w * r;
    lemma_sum(w, x - a, vt);
    lemma_sum(w, x, a);
    lemma_swap(w, a);
    lemma_inside(w, v, t);
    let r0 = w * x - a * w - v * wt;
    assert(wr == r0);
    lemma_assoc(w, r, e);
    lemma_sum(wr, da, dvt);
    lemma_swap(wr, da);
    lemma_inside(wr, dv, t);
    let m0 = wt * x - a * wt - v * (wt * t);
    lemma_swap(wr, t);
    lemma_sum(t, w * x - a * w, v * wt);
    lemma_sum(t, w * x, a * w);
    lemma_assoc(t, w, x);
    lemma_swap(t, w);
    lemma_inside(t, a, w);
    lemma_inside(t, v, wt);
    lemma_swap(t, wt);
    assert(wr * t == m0);
}

/// How the misfit changes from one line to another.
proof fn lemma_shift(obs: Seq<Observation>, a: real, v: real, da: real, dv: real)
    ensures
        ({
            let s = exact_sums(obs);
            misfit(obs, a + da, v + dv) == misfit(obs, a, v) - 2real * (da * residual(s, a, v) + dv
                * residual_moment(s, a, v)) + spread(obs, da, dv)
        }),
    decreases obs.len(),
{
    let s = exact_sums(obs);
    if obs.len() == 0 {
        assert(a * 0real == 0real && v * 0real == 0real && da * 0real == 0real && dv * 0real
            == 0real) by (nonlinear_arith);
    } else {
        let rest = obs.drop_last();
        let o = obs.last();
        let b = exact_sums(rest);
        lemma_shift(rest, a, v, da, dv);
        lemma_shift_term(o, a, v, da, dv);
        let wt = o.w * o.t;
        let r0 = o.w * o.x - a * o.w - v * wt;
        let m0 = wt * o.x - a * wt - v * (wt * o.t);
        let z = wt * o.t;
        assert(a * (b.w + o.w) == a * b.w + a * o.w) by (nonlinear_arith);
        assert(v * (b.wt + wt) == v * b.wt + v * wt) by (nonlinear_arith);
        assert(a * (b.wt + wt) == a * b.wt + a * wt) by (nonlinear_arith);
        assert(v * (b.wt2 + z) == v * b.wt2 + v * z) by (nonlinear_arith);
        let p = residual(b, a, v);
        let q = residual_moment(b, a, v);
        assert(residual(s, a, v) == p + r0);
        assert(residual_moment(s, a, v) == q + m0);
        assert(da * (p + r0) == da * p + da * r0) by (nonlinear_arith);
        assert(dv * (q + m0) == dv * q + dv * m0) by (nonlinear_arith);
    }
}

proof fn lemma_total_weight(obs: Seq<Observation>)
    requires
        all_positive(obs),
    ensures
        exact_sums(obs).w >= 0real,
        obs.len() > 0 ==> exact_sums(obs).w > 0real,
    decreases obs.len(),
{
    if obs.len() > 0 {
        let rest = obs.drop_last();
        assert forall|i: int| 0 <= i < rest.len() implies (#[trigger] rest[i]).w > 0real by {
            assert(obs[i].w > 0real);
        }
        lemma_total_weight(rest);
        assert(obs[obs.len() - 1].w > 0real);
    }
}

/// The line of the fit leaves no residual: the normal equations.
proof fn lemma_normal_equations(s: ExactSums)
    requires
        s.w > 0real,
        s.denominator() != 0real,
    ensures
        residual(s, s.intercept(), s.slope()) == 0real,
        residual_moment(s, s.intercept(), s.slope()) == 0real,
{
    let d = s.denominator();
    let v = s.slope();
    let a = s.intercept();
    let w = s.w;
    let n = w * s.wtx - s.wt * s.wx;
    assert(v * d == n) by (nonlinear_arith)
        requires
            v == n / d,
            d != 0real,
    ;
    let vt = v * s.wt;
    let top = s.wx - vt;
    assert(a * w == top) by (nonlinear_arith)
        requires
            a == top / w,
            w > 0real,
    ;
    let at = a * s.wt;
    let vt2 = v * s.wt2;
    let m = s.wtx - at - vt2;
    let wt = s.wt;
    let wat = w * at;
    lemma_assoc(w, a, wt);
    lemma_swap(w, a);
    assert(wat == top * wt);
    let wm = w * m;
    lemma_sum(w, s.wtx - at, vt2);
    lemma_sum(w, s.wtx, at);
    lemma_swap(top, wt);
    lemma_sum(wt, s.wx, vt);
    lemma_inside(wt, v, wt);
    lemma_inside(w, v, s.wt2);
    lemma_sum(v, w * s.wt2, wt * wt);
    assert(wm == 0real);
    assert(m == 0real) by (nonlinear_arith)
        requires
            wm == w * m,
            wm == 0real,
            w > 0real,
    ;
}

/// Positive weights make the denominator one, or zero.
proof fn lemma_denominator(obs: Seq<Observation>)
    requires
        all_positive(obs),
        obs.len() > 0,
    ensures
        exact_sums(obs).denominator() >= 0real,
{
    let s = exact_sums(obs);
    lemma_total_weight(obs);
    let w = s.w;
    // The spread of the times around their mean, times the weight.
    let t = s.wt;
    let a = -t / w;
    lemma_spread(obs, a, 1real);
    let q = form(s, a, 1real);
    let aw = a * w;
    assert(aw == -t) by (nonlinear_arith)
        requires
            aw == a * w,
            a == -t / w,
            w > 0real,
    ;
    lemma_assoc(a, a, w);
    assert(a * 1real == a && (1real * 1real) * s.wt2 == s.wt2) by (nonlinear_arith);
    assert(a * -t == -(a * t)) by (nonlinear_arith);
    let y = a * t;
    assert(q == y + s.wt2);
    let wq = w * q;
    lemma_sum(w, y, s.wt2);
    lemma_assoc(w, a, t);
    lemma_swap(w, a);
    assert(-t * t == -(t * t)) by (nonlinear_arith);
    assert(wq >= 0real) by (nonlinear_arith)
        requires
            wq == w * q,
            q >= 0real,
            w > 0real,
    ;
}

/// The fit is the weighted least-squares line: no line misses the observations by less
/// than the one with its slope and intercept, and none with another slope by as little.
pub proof fn law_fit_minimises_the_misfit(obs: Seq<Observation>, a: real, v: real)
    requires
        all_positive(obs),
        exact_sums(obs).denominator() != 0real,
    ensures
        ({
            let s = exact_sums(obs);
            let least = misfit(obs, s.intercept(), s.slope());
            &&& least <= misfit(obs, a, v)
            &&& v != s.slope() ==> least < misfit(obs, a, v)
        }),
{
    let s = exact_sums(obs);
    if obs.len() == 0 {
        assert(0real * 0real == 0real) by (nonlinear_arith);
    }
    lemma_total_weight(obs);
    lemma_denominator(obs);
    lemma_normal_equations(s);
    let da = a - s.intercept();
    let dv = v - s.slope();
    lemma_shift(obs, s.intercept(), s.slope(), da, dv);
    lemma_spread(obs, da, dv);
    assert(da * 0real == 0real && dv * 0real == 0real) by (nonlinear_arith);
    assert(s.intercept() + da == a && s.slope() + dv == v);
    if dv != 0real {
        lemma_form_positive(s, da, dv);
    }
}

/// A line that is not level has a spread.
proof fn lemma_form_positive(s: ExactSums, a: real, v: real)
    requires
        s.w > 0real,
        s.denominator() > 0real,
        v != 0real,
    ensures
        form(s, a, v) > 0real,
{
    let w = s.w;
    let t = s.wt;
    let q = form(s, a, v);
    let wq = w * q;
    let aw = a * w;
    let vt = v * t;
    let y = aw + vt;
    let vv = v * v;
    let d = s.denominator();
    let p1 = (a * a) * w;
    let p2 = (a * v) * t;
    let p3 = vv * s.wt2;
    lemma_sum(w, p1 + 2real * p2, p3);
    lemma_sum(w, p1, 2real * p2);
    lemma_twice(w, p2);
    // w (a a) w is the square of a w.
    lemma_swap(w, p1);
    lemma_assoc(a * a, w, w);
    lemma_square_of_product(a, w);
    // w (a v) t is a w times v t.
    lemma_assoc(a, v, t);
    lemma_assoc(w, a, vt);
    lemma_swap(w, a);
    lemma_inside(w, vv, s.wt2);
    lemma_square_of_product(v, t);
    lemma_sum(vv, w * s.wt2, t * t);
    lemma_square_of_sum(aw, vt);
    assert(y * y >= 0real) by (nonlinear_arith);
    assert(vv > 0real) by (nonlinear_arith)
        requires
            vv == v * v,
            v != 0real,
    ;
    assert(vv * d > 0real) by (nonlinear_arith)
        requires
            vv > 0real,
            d > 0real,
    ;
    assert(wq > 0real);
    assert(q > 0real) by (nonlinear_arith)
        requires
            wq == w * q,
            wq > 0real,
            w > 0real,
    ;
}

proof fn lemma_on_a_line(obs: Seq<Observation>, a: real, v: real)
    requires
        forall|i: int| 0 <= i < obs.len() ==> (#[trigger] obs[i]).x == a + v * obs[i].t,
    ensures
        residual(exact_sums(obs), a, v) == 0real,
        residual_moment(exact_sums(obs), a, v) == 0real,
    decreases obs.len(),
{
    if obs.len() == 0 {
        assert(a * 0real == 0real && v * 0real == 0real) by (nonlinear_arith);
    } else {
        let rest = obs.drop_last();
        let o = obs.last();
        let b = exact_sums(rest);
        assert forall|i: int| 0 <= i < rest.len() implies (#[trigger] rest[i]).x == a + v
            * rest[i].t by {
            assert(obs[i].x == a + v * obs[i].t);
        }
        lemma_on_a_line(rest, a, v);
        assert(obs[obs.len() - 1].x == a + v * obs[obs.len() - 1].t);
        let w = o.w;
        let t = o.t;
        let vt = v * t;
        let wt = w * t;
        let z = wt * t;
        let x = a + vt;
        lemma_sum(w, a, vt);
        lemma_swap(w, a);
        lemma_inside(w, v, t);
        lemma_sum(wt, a, vt);
        lemma_swap(wt, a);
        lemma_inside(wt, v, t);
        assert(w * x == a * w + v * wt);
        assert(wt * x == a * wt + v * z);
        assert(a * (b.w + w) == a * b.w + a * w) by (nonlinear_arith);
        assert(v * (b.wt + wt) == v * b.wt + v * wt) by (nonlinear_arith);
        assert(a * (b.wt + wt) == a * b.wt + a * wt) by (nonlinear_arith);
        assert(v * (b.wt2 + z) == v * b.wt2 + v * z) by (nonlinear_arith);
    }
}

/// A finger that moves steadily has its own velocity: of observations on a line the fit
/// is that line's slope, whatever the weights.
pub proof fn law_fit_of_a_line_is_its_slope(obs: Seq<Observation>, a: real, v: real)
    requires
        exact_sums(obs).denominator() != 0real,
        forall|i: int| 0 <= i < obs.len() ==> (#[trigger] obs[i]).x == a + v * obs[i].t,
    ensures
        exact_sums(obs).slope() == v,
{
    let s = exact_sums(obs);
    lemma_on_a_line(obs, a, v);
    let w = s.w;
    let wt = s.wt;
    let d = s.denominator();
    let n = w * s.wtx - wt * s.wx;
    let aw = a * w;
    let at = a * wt;
    let vt = v * wt;
    let vt2 = v * s.wt2;
    assert(s.wtx == at + vt2);
    assert(s.wx == aw + vt);
    lemma_sum(w, at, vt2);
    lemma_sum(wt, aw, vt);
    lemma_inside(w, a, wt);
    lemma_inside(wt, a, w);
    lemma_swap(w, wt);
    lemma_inside(w, v, s.wt2);
    lemma_inside(wt, v, wt);
    lemma_sum(v, w * s.wt2, wt * wt);
    assert(n == v * d);
    assert(n / d == v) by (nonlinear_arith)
        requires
            n == v * d,
            d != 0real,
    ;
}

} // verus!
