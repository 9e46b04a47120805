//! What the tracker reports is the slope of the weighted least-squares line, of each
//! coordinate by itself, but for rounding and the cap.

use vstd::prelude::*;
use vstd::arithmetic::power2::*;
use crate::ieee::double::Double;
use crate::ieee::format::Format;
use crate::ieee::single::Single;
use crate::momentum::{RecencyWeights, Ring, Sample, MAX_VELOCITY};
use super::fit::{ExactSums, Observation};

verus! {

/// The samples of one coordinate as observations: the weight, the seconds since the first
/// one, and the position.
pub open spec fn observations(
    samples: Seq<Sample>,
    weights: Seq<Double>,
    vertical: bool,
) -> Seq<Observation> {
    Seq::new(
        samples.len(),
        |i: int|
            Observation {
                w: weights[i].value(),
                t: (samples[i].time - samples[0].time) as real / 1_000_000_000real,
                x: if vertical {
                    samples[i].y.value()
                } else {
                    samples[i].x.value()
                },
            },
    )
}

/// The observations with every position on the positive side.
pub open spec fn sizes(obs: Seq<Observation>) -> Seq<Observation> {
    Seq::new(
        obs.len(),
        |i: int| Observation { w: obs[i].w, t: obs[i].t, x: crate::ieee::error::size(obs[i].x) },
    )
}

/// Finite samples in order of time, with weights between one and eight.
pub open spec fn is_fit_input(samples: Seq<Sample>, weights: Seq<Double>) -> bool {
    &&& 1 <= samples.len() <= 16
    &&& forall|i: int|
        0 <= i < samples.len() ==> super::velocity::is_finite_sample(#[trigger] samples[i])
            && samples[0].time <= samples[i].time
    &&& forall|i: int|
        0 <= i < samples.len() ==> (#[trigger] weights[i]).is_finite() && 1real
            <= weights[i].value() <= 8real
}

/// A span in seconds is close to the exact one.
pub proof fn lemma_seconds_close(nanos: nat)
    requires
        nanos <= u64::MAX,
    ensures
        crate::momentum::seconds_of(nanos).close(
            nanos as real / 1_000_000_000real,
            nanos as real / 1_000_000_000real,
            2real,
        ),
        crate::ieee::close::ranged(nanos as real / 1_000_000_000real, -30, 36),
{
    reveal(Double::over);
    let f = Double::format();
    Double::lemma_format();
    lemma2_to64();
    lemma2_to64_rest();
    let whole = nanos / 1_000_000_000;
    let rest = nanos % 1_000_000_000;
    Double::law_integer_exact(whole);
    Double::law_integer_exact(rest);
    Double::law_integer_exact(1_000_000_000);
    let a = Double::nearest(whole as real);
    let d = Double::nearest(1_000_000_000real);
    let b = Double::fraction(rest, 1_000_000_000);
    f.lemma_zero_value(d.number());
    let x = rest as real / 1_000_000_000real;
    let w = whole as real;
    assert(b == Double::of(f.rounded(false, x)));
    // A nanosecond is more than 2^-30 seconds.
    Format::lemma_exp2_shift(-30, 30);
    Format::lemma_exp2_shift(0, 36);
    let t = Format::exp2(-30);
    assert(1073741824real * t == 1real);
    let one = Format::exp2(0);
    let top = Format::exp2(36);
    assert(top == 68719476736real) by (nonlinear_arith)
        requires
            top == 68719476736real * one,
            one == 1real,
    ;
    assert(crate::ieee::close::ranged(x, -30, 36));
    assert(crate::ieee::close::ranged(w, -30, 36));
    assert(nanos == whole * 1_000_000_000 + rest);
    assert(w + x == nanos as real / 1_000_000_000real);
    assert(crate::ieee::close::ranged(w + x, -30, 36));
    crate::ieee::close::lemma_ranged_more(x, -30, 36, -900, 300);
    crate::ieee::close::lemma_ranged_more(w + x, -30, 36, -900, 300);
    assert(0real * x == 0real) by (nonlinear_arith);
    Double::lemma_rounded_close(false, x, x, x, 0real);
    a.lemma_close_itself();
    a.lemma_close_more(w, w, 0real, 1real);
    Double::law_sum_is_close(a, b, w, x, w, x, 1real);
}

/// A coordinate is close to itself in the larger format.
pub proof fn lemma_widened_close(a: Single)
    requires
        a.is_finite(),
    ensures
        a.widened().close(a.value(), crate::ieee::error::size(a.value()), 1real),
        crate::ieee::close::ranged(crate::ieee::error::size(a.value()), -149, 128),
{
    let f = Single::format();
    Single::lemma_format();
    lemma2_to64();
    let x = a.value();
    let m = crate::ieee::error::size(x);
    f.lemma_zero_value(a.number());
    f.lemma_value_zero();
    f.lemma_value_increasing(a.number().code as nat, f.infinity as nat);
    f.lemma_value_split(253, 0x100_0000);
    Format::lemma_exp2_shift(104, 24);
    f.lemma_value_split(0, 1);
    let w = Format::exp2(-149);
    assert(1real * w == w) by (nonlinear_arith);
    if a.number().code > 0 {
        f.lemma_value_increasing(1, a.number().code as nat);
    }
    crate::ieee::close::lemma_ranged_more(m, -149, 128, -900, 300);
    assert(0real * m == 0real) by (nonlinear_arith);
    Double::lemma_rounded_close(a.number().negative, x, x, m, 0real);
}

/// The terms of one sample.
proof fn lemma_terms(w: Double, t: Double, x: Double, tr: real, xr: real)
    requires
        w.is_finite(),
        1real <= w.value() <= 8real,
        t.close(tr, tr, 2real),
        crate::ieee::close::ranged(tr, -30, 36),
        x.close(xr, crate::ieee::error::size(xr), 1real),
        crate::ieee::close::ranged(crate::ieee::error::size(xr), -149, 128),
    ensures
        ({
            let wr = w.value();
            let m = crate::ieee::error::size(xr);
            &&& w.close(wr, wr, 10real)
            &&& w.times(t).close(wr * tr, wr * tr, 10real)
            &&& w.times(t).times(t).close(wr * tr * tr, wr * tr * tr, 10real)
            &&& w.times(x).close(wr * xr, wr * m, 10real)
            &&& w.times(t).times(x).close(wr * tr * xr, wr * tr * m, 10real)
            &&& crate::ieee::close::ranged(wr, 0, 3)
            &&& crate::ieee::close::ranged(wr * tr, -30, 39)
            &&& crate::ieee::close::ranged(wr * tr * tr, -60, 75)
            &&& crate::ieee::close::ranged(wr * m, -149, 131)
            &&& crate::ieee::close::ranged(wr * tr * m, -179, 167)
        }),
{
    lemma2_to64();
    let wr = w.value();
    let m = crate::ieee::error::size(xr);
    Format::lemma_exp2_shift(0, 3);
    let one = Format::exp2(0);
    let eight = Format::exp2(3);
    assert(eight == 8real) by (nonlinear_arith)
        requires
            eight == 8real * one,
            one == 1real,
    ;
    w.lemma_close_itself();
    crate::ieee::close::lemma_ranged_product(wr, tr, 0, 3, -30, 36);
    crate::ieee::close::lemma_ranged_product(wr * tr, tr, -30, 39, -30, 36);
    crate::ieee::close::lemma_ranged_product(wr, m, 0, 3, -149, 128);
    crate::ieee::close::lemma_ranged_product(wr * tr, m, -30, 39, -149, 128);
    crate::ieee::close::lemma_ranged_more(wr * tr, -30, 39, -900, 300);
    crate::ieee::close::lemma_ranged_more(wr * tr * tr, -60, 75, -900, 300);
    crate::ieee::close::lemma_ranged_more(wr * m, -149, 131, -900, 300);
    crate::ieee::close::lemma_ranged_more(wr * tr * m, -179, 167, -900, 300);
    Double::law_product_is_close(w, t, wr, tr, wr, tr, 0real, 2real);
    let wt = w.times(t);
    Double::law_product_is_close(wt, t, wr * tr, tr, wr * tr, tr, 4real, 2real);
    Double::law_product_is_close(w, x, wr, xr, wr, m, 0real, 1real);
    Double::law_product_is_close(wt, x, wr * tr, xr, wr * tr, m, 4real, 1real);
    w.lemma_close_more(wr, wr, 0real, 10real);
    wt.lemma_close_more(wr * tr, wr * tr, 4real, 10real);
    wt.times(t).lemma_close_more(wr * tr * tr, wr * tr * tr, 8real, 10real);
    w.times(x).lemma_close_more(wr * xr, wr * m, 3real, 10real);
    wt.times(x).lemma_close_more(wr * tr * xr, wr * tr * m, 7real, 10real);
}

/// One more term of a sum.
proof fn lemma_one_more(
    s: Double,
    a: Double,
    x: real,
    y: real,
    m: real,
    n: real,
    k: int,
    low: int,
    high: int,
)
    requires
        0 <= k < 16,
        -900 <= low,
        high <= 200,
        s.close(x, m, 10real + k as real),
        a.close(y, n, 10real),
        crate::ieee::close::ranged(m, low, high + k),
        crate::ieee::close::ranged(n, low, high),
    ensures
        s.plus(a).close(x + y, m + n, 10real + (k + 1) as real),
        crate::ieee::close::ranged(m + n, low, high + k + 1),
{
    crate::ieee::close::lemma_ranged_more(n, low, high, low, high + k);
    crate::ieee::close::lemma_ranged_sum(m, n, low, high + k);
    crate::ieee::close::lemma_ranged_more(m + n, low, high + k + 1, -900, 300);
    let j = 10real + k as real;
    assert((k + 1) as real == k as real + 1real);
    a.lemma_close_more(y, n, 10real, j);
    Double::law_sum_is_close(s, a, x, y, m, n, j);
}

/// The sums that a fit of one coordinate works with.
pub open spec fn coordinate_sums(
    samples: Seq<Sample>,
    weights: Seq<Double>,
    k: nat,
    vertical: bool,
) -> (Double, Double) {
    let s = crate::momentum::weighted_sums(samples, weights, k);
    if vertical {
        (s.wy, s.wty)
    } else {
        (s.wx, s.wtx)
    }
}

/// The rounded sums are close to the exact ones.
proof fn lemma_sums_close(samples: Seq<Sample>, weights: Seq<Double>, vertical: bool, k: nat)
    requires
        is_fit_input(samples, weights),
        k <= samples.len(),
    ensures
        ({
            let s = crate::momentum::weighted_sums(samples, weights, k);
            let (wx, wtx) = coordinate_sums(samples, weights, k, vertical);
            let obs = observations(samples, weights, vertical);
            let e = super::fit::exact_sums(obs.take(k as int));
            let m = super::fit::exact_sums(sizes(obs).take(k as int));
            let n = k as int;
            let j = 10real + k as real;
            &&& e.w == m.w && e.wt == m.wt && e.wt2 == m.wt2
            &&& s.w.close(e.w, m.w, j) && crate::ieee::close::ranged(m.w, 0, 3 + n)
            &&& s.wt.close(e.wt, m.wt, j) && crate::ieee::close::ranged(m.wt, -30, 39 + n)
            &&& s.wt2.close(e.wt2, m.wt2, j) && crate::ieee::close::ranged(m.wt2, -60, 75 + n)
            &&& wx.close(e.wx, m.wx, j) && crate::ieee::close::ranged(m.wx, -149, 131 + n)
            &&& wtx.close(e.wtx, m.wtx, j) && crate::ieee::close::ranged(m.wtx, -179, 167 + n)
        }),
    decreases k,
{
    let obs = observations(samples, weights, vertical);
    let abs = sizes(obs);
    if k == 0 {
        let z = Double::zero();
        Double::lemma_format();
        Double::format().lemma_value_zero();
        assert(z.number().code == 0);
        z.lemma_close_itself();
        z.lemma_close_more(0real, 0real, 0real, 10real);
    } else {
        let i = (k - 1) as nat;
        lemma_sums_close(samples, weights, vertical, i);
        let o = obs[i as int];
        assert(obs.take(k as int).drop_last() =~= obs.take(i as int));
        assert(abs.take(k as int).drop_last() =~= abs.take(i as int));
        assert(obs.take(k as int).last() == o);
        assert(abs.take(k as int).last() == abs[i as int]);
        let sample = samples[i as int];
        let w = weights[i as int];
        let nanos = crate::momentum::elapsed(sample.time, samples[0].time);
        assert(super::velocity::is_finite_sample(sample));
        let t = crate::momentum::seconds_of(nanos);
        let c = if vertical { sample.y } else { sample.x };
        assert(o.t == nanos as real / 1_000_000_000real);
        lemma_seconds_close(nanos);
        lemma_widened_close(c);
        let x = c.widened();
        lemma_terms(w, t, x, o.t, o.x);
        let s = crate::momentum::weighted_sums(samples, weights, i);
        let (wx, wtx) = coordinate_sums(samples, weights, i, vertical);
        let e = super::fit::exact_sums(obs.take(i as int));
        let m = super::fit::exact_sums(abs.take(i as int));
        let a = abs[i as int];
        lemma_one_more(s.w, w, e.w, o.w, m.w, a.w, i as int, 0, 3);
        lemma_one_more(s.wt, w.times(t), e.wt, o.w * o.t, m.wt, a.w * a.t, i as int, -30, 39);
        lemma_one_more(
            s.wt2,
            w.times(t).times(t),
            e.wt2,
            o.w * o.t * o.t,
            m.wt2,
            a.w * a.t * a.t,
            i as int,
            -60,
            75,
        );
        lemma_one_more(wx, w.times(x), e.wx, o.w * o.x, m.wx, a.w * a.x, i as int, -149, 131);
        lemma_one_more(
            wtx,
            w.times(t).times(x),
            e.wtx,
            o.w * o.t * o.x,
            m.wtx,
            a.w * a.t * a.x,
            i as int,
            -179,
            167,
        );
    }
}

/// A quotient is near the exact one.
pub proof fn lemma_quotient(num: Double, den: Double)
    requires
        num.is_finite(),
        den.is_finite(),
        den.value() > 0real,
        crate::ieee::error::size(num.value() / den.value()) <= Format::exp2(300),
    ensures
        ({
            let q = num.over(den);
            let z = num.value() / den.value();
            &&& q.is_finite()
            &&& crate::ieee::error::size(q.value() - z) <= crate::ieee::error::size(z)
                / 1073741824real + Format::exp2(-152)
        }),
{
    reveal(Double::over);
    let f = Double::format();
    Double::lemma_format();
    lemma2_to64();
    lemma2_to64_rest();
    f.lemma_zero_value(den.number());
    let z = num.value() / den.value();
    let sign = num.number().negative != den.number().negative;
    Double::lemma_of_rounded(sign, z, 300);
    f.lemma_value_split(2045, 0x20_0000_0000_0000);
    Format::lemma_exp2_shift(971, 53);
    assert(2045 * 0x10_0000_0000_0000 + 0x20_0000_0000_0000 == f.infinity);
    crate::ieee::close::lemma_power_order(301, 1024);
    Format::lemma_exp2_step(300);
    Format::lemma_exp2_pos(300);
    f.lemma_rounded_error(sign, z);
    f.lemma_value_split(0, 1);
    let w = Format::exp2(-1074);
    assert(1real * w == w) by (nonlinear_arith);
    crate::ieee::close::lemma_power_order(-1074, -152);
    Format::lemma_exp2_pos(-152);
    Format::lemma_exp2_pos(-1074);
    assert(2real * f.hidden as real == 9007199254740992real);
}

/// What is far beyond the cap stays so in the smaller format.
proof fn lemma_far(q: Double)
    requires
        q.is_finite(),
        crate::ieee::error::size(q.value()) > Format::exp2(100),
    ensures
        !q.narrowed().is_nan(),
        q.value() > 0real ==> q.narrowed().value() >= Format::exp2(100),
        q.value() < 0real ==> q.narrowed().value() <= -Format::exp2(100),
{
    let f = Single::format();
    Single::lemma_format();
    lemma2_to64();
    f.lemma_value_zero();
    let code = f.lemma_dyadic(1, 100);
    let e = Format::exp2(100);
    assert(1real * e == e) by (nonlinear_arith);
    Format::lemma_exp2_pos(100);
    let sign = q.number().negative;
    let x = q.value();
    let m = crate::ieee::error::size(x);
    f.lemma_rounded_at_least(sign, m, code);
    f.lemma_rounded_holds(sign, x);
    Single::lemma_number_of(f.rounded(sign, x));
    f.law_nearest_exists(m);
    f.lemma_zero_value(f.rounded(sign, x));
}

/// A capped component is a quotient brought within the cap, but for rounding.
pub proof fn lemma_capped_quotient(num: Double, den: Double)
    requires
        num.is_finite(),
        den.is_finite(),
        den.value() > 0real,
        crate::ieee::error::size(num.value() / den.value()) <= Format::exp2(300),
    ensures
        ({
            let v = crate::momentum::capped(num.over(den).narrowed());
            let z = num.value() / den.value();
            let t = crate::ieee::error::size(v.value()) / 4194304real + Format::exp2(-148);
            &&& v.is_finite()
            &&& v.value() < 16000real ==> z <= v.value() + t
            &&& v.value() > -16000real ==> z >= v.value() - t
        }),
{
    reveal(Single::less);
    let f = Single::format();
    Single::lemma_format();
    let q = num.over(den);
    let x = q.narrowed();
    let z = num.value() / den.value();
    lemma_quotient(num, den);
    let max = Single::nearest(MAX_VELOCITY as real);
    Single::law_integer_exact(MAX_VELOCITY as nat);
    assert(max.opposite().value() == -max.value());
    f.lemma_value_increasing(max.number().code as nat, f.infinity as nat);
    Format::lemma_exp2_step(-152);
    Format::lemma_exp2_step(-151);
    Format::lemma_exp2_step(-150);
    Format::lemma_exp2_step(-149);
    Format::lemma_exp2_pos(-152);
    Single::lemma_in_range(1000000real);
    Single::lemma_least();
    let big = Format::exp2(100);
    if crate::ieee::error::size(q.value()) > big {
        lemma_far(q);
        Single::law_within_bounds(x, max.opposite(), max);
        Single::law_opposite(max);
    } else {
        Single::law_rounding_error(q.number().negative, q.value());
        assert(x.is_finite());
        Single::law_opposite(max);
    }
}

/// What the rounding of the denominator is measured by.
pub open spec fn denominator_size(m: ExactSums) -> real {
    m.w * m.wt2 + m.wt * m.wt
}

/// What the rounding of the slope, times the denominator, is measured by.
pub open spec fn numerator_size(m: ExactSums) -> real {
    m.w * m.wtx + m.wt * m.wx
}

/// The normal equations are not degenerate: the times are far enough apart for the
/// denominator to be told from the rounding of its two terms.
pub open spec fn is_determined(s: ExactSums) -> bool {
    &&& s.denominator() >= 1real / 274877906944real
    &&& s.denominator() >= denominator_size(s) / 1099511627776real
}

/// What rounding may do to a velocity, times the denominator of the fit.
pub open spec fn miss(v: real, s: ExactSums, m: ExactSums) -> real {
    let d = s.denominator();
    crate::ieee::error::size(v) * d / 1048576real + d / 1152921504606846976real + (
    crate::ieee::error::size(v) * denominator_size(m) + numerator_size(m)) / 1099511627776real
}

/// A velocity component is the slope of the fit, brought within the cap: but for rounding
/// it is no less unless it is at the upper cap, and no more unless it is at the lower one.
pub open spec fn is_slope(v: Single, obs: Seq<Observation>) -> bool {
    let s = super::fit::exact_sums(obs);
    let m = super::fit::exact_sums(sizes(obs));
    let d = s.denominator();
    &&& v.is_finite()
    &&& v.value() < 16000real ==> (s.slope() - v.value()) * d <= miss(v.value(), s, m)
    &&& v.value() > -16000real ==> (v.value() - s.slope()) * d <= miss(v.value(), s, m)
}

/// With three or more recent samples each component that the tracker reports is the slope
/// of the weighted least-squares line of its own coordinate over time, up to the cap and
/// to rounding, wherever the normal equations are not degenerate. That this slope is the
/// one of the line with the least weighted misfit is
/// [`law_fit_minimises_the_misfit`](super::fit::law_fit_minimises_the_misfit).
pub proof fn law_velocity_is_the_fit(ring: Ring, now: u64, weights: RecencyWeights)
    requires
        ring.wf(),
        weights.wf(),
        ring.recent(now).len() >= 3,
        forall|i: int|
            0 <= i < ring.samples.len() && (#[trigger] ring.samples[i]) is Some
                ==> super::velocity::is_finite_sample(ring.samples[i]->0),
        forall|i: int|
            0 <= i < ring.recent(now).len() ==> (#[trigger] weights.row(
                ring.recent(now).len() as int,
            )[i]).value() >= 1real,
        is_determined(
            super::fit::exact_sums(
                observations(
                    ring.recent(now),
                    weights.row(ring.recent(now).len() as int),
                    false,
                ),
            ),
        ),
    ensures
        ({
            let recent = ring.recent(now);
            let row = weights.row(recent.len() as int);
            let v = ring.velocity(now, weights);
            &&& is_slope(v.0, observations(recent, row, false))
            &&& is_slope(v.1, observations(recent, row, true))
        }),
{
    let recent = ring.recent(now);
    let row = weights.row(recent.len() as int);
    lemma_recent_is_fit_input(ring, now, weights);
    lemma_component(recent, row, false);
    lemma_same_times(recent, row);
    lemma_component(recent, row, true);
}

/// The recent samples of a ring can be fitted.
pub proof fn lemma_recent_is_fit_input(ring: Ring, now: u64, weights: RecencyWeights)
    requires
        ring.wf(),
        weights.wf(),
        ring.recent(now).len() >= 1,
        forall|i: int|
            0 <= i < ring.samples.len() && (#[trigger] ring.samples[i]) is Some
                ==> super::velocity::is_finite_sample(ring.samples[i]->0),
        forall|i: int|
            0 <= i < ring.recent(now).len() ==> (#[trigger] weights.row(
                ring.recent(now).len() as int,
            )[i]).value() >= 1real,
    ensures
        is_fit_input(ring.recent(now), weights.row(ring.recent(now).len() as int)),
{
    let recent = ring.recent(now);
    let n = recent.len() as int;
    let row = weights.row(n);
    let slots = crate::momentum::recent_samples(ring.samples, now);
    super::velocity::lemma_recent_finite(ring.samples, now);
    super::velocity::lemma_by_time_finite(slots);
    super::lemma_by_time_len(slots);
    super::law_by_time_sorts(slots);
    assert forall|i: int| 0 <= i < n implies (#[trigger] row[i]).is_finite() && 1real
        <= row[i].value() <= 8real by {
        weights.lemma_weights(n, i);
        super::velocity::lemma_weight(row[i]);
    }
    assert forall|i: int| 0 <= i < n implies super::velocity::is_finite_sample(
        #[trigger] recent[i],
    ) && recent[0].time <= recent[i].time by {
        assert(recent[0].time <= recent[i].time);
    }
}

/// The two coordinates have the same weights and times.
proof fn lemma_same_times(samples: Seq<Sample>, weights: Seq<Double>)
    ensures
        ({
            let a = super::fit::exact_sums(observations(samples, weights, false));
            let b = super::fit::exact_sums(observations(samples, weights, true));
            a.w == b.w && a.wt == b.wt && a.wt2 == b.wt2
        }),
{
    lemma_same_times_up_to(samples, weights, samples.len() as int);
    let a = observations(samples, weights, false);
    let b = observations(samples, weights, true);
    assert(a.take(samples.len() as int) =~= a);
    assert(b.take(samples.len() as int) =~= b);
}

proof fn lemma_same_times_up_to(samples: Seq<Sample>, weights: Seq<Double>, k: int)
    requires
        0 <= k <= samples.len(),
    ensures
        ({
            let a = super::fit::exact_sums(observations(samples, weights, false).take(k));
            let b = super::fit::exact_sums(observations(samples, weights, true).take(k));
            a.w == b.w && a.wt == b.wt && a.wt2 == b.wt2
        }),
    decreases k,
{
    if k > 0 {
        lemma_same_times_up_to(samples, weights, k - 1);
        let a = observations(samples, weights, false);
        let b = observations(samples, weights, true);
        assert(a.take(k).drop_last() =~= a.take(k - 1));
        assert(b.take(k).drop_last() =~= b.take(k - 1));
        assert(a.take(k).last() == a[k - 1]);
        assert(b.take(k).last() == b[k - 1]);
    }
}

/// One component of the fit.
proof fn lemma_component(samples: Seq<Sample>, weights: Seq<Double>, vertical: bool)
    requires
        is_fit_input(samples, weights),
        is_determined(super::fit::exact_sums(observations(samples, weights, vertical))),
    ensures
        ({
            let v = crate::momentum::fitted_velocity(samples, weights);
            is_slope(
                crate::momentum::capped(if vertical { v.1 } else { v.0 }),
                observations(samples, weights, vertical),
            )
        }),
{
    let n = samples.len();
    let k = n as int;
    let obs = observations(samples, weights, vertical);
    assert(obs.take(k) =~= obs);
    assert(sizes(obs).take(k) =~= sizes(obs));
    let e = super::fit::exact_sums(obs);
    let m = super::fit::exact_sums(sizes(obs));
    lemma_sums_close(samples, weights, vertical, n);
    let s = crate::momentum::weighted_sums(samples, weights, n);
    let (wx, wtx) = coordinate_sums(samples, weights, n, vertical);
    let den = s.w.times(s.wt2).minus(s.wt.times(s.wt));
    let num = s.w.times(wtx).minus(s.wt.times(wx));
    crate::ieee::close::lemma_ranged_product(m.w, m.wt2, 0, 3 + k, -60, 75 + k);
    crate::ieee::close::lemma_ranged_product(m.wt, m.wt, -30, 39 + k, -30, 39 + k);
    crate::ieee::close::lemma_ranged_product(m.w, m.wtx, 0, 3 + k, -179, 167 + k);
    crate::ieee::close::lemma_ranged_product(m.wt, m.wx, -30, 39 + k, -149, 131 + k);
    crate::ieee::close::lemma_ranged_more(m.w * m.wt2, -60, 78 + 2 * k, -60, 110);
    crate::ieee::close::lemma_ranged_more(m.wt * m.wt, -60, 78 + 2 * k, -60, 110);
    crate::ieee::close::lemma_ranged_more(m.w * m.wtx, -179, 170 + 2 * k, -179, 202);
    crate::ieee::close::lemma_ranged_more(m.wt * m.wx, -179, 170 + 2 * k, -179, 202);
    lemma_product_close(s.w, s.wt2, e.w, e.wt2, m.w, m.wt2, k, -60, 110);
    lemma_product_close(s.wt, s.wt, e.wt, e.wt, m.wt, m.wt, k, -60, 110);
    lemma_product_close(s.w, wtx, e.w, e.wtx, m.w, m.wtx, k, -179, 202);
    lemma_product_close(s.wt, wx, e.wt, e.wx, m.wt, m.wx, k, -179, 202);
    lemma_difference_close(
        s.w.times(s.wt2),
        s.wt.times(s.wt),
        e.w * e.wt2,
        e.wt * e.wt,
        m.w * m.wt2,
        m.wt * m.wt,
        -60,
        110,
    );
    lemma_difference_close(
        s.w.times(wtx),
        s.wt.times(wx),
        e.w * e.wtx,
        e.wt * e.wx,
        m.w * m.wtx,
        m.wt * m.wx,
        -179,
        202,
    );
    let d = e.denominator();
    let top = e.w * e.wtx - e.wt * e.wx;
    let md = denominator_size(m);
    let mn = numerator_size(m);
    assert(denominator_size(e) == md);
    assert(den.close(d, md, 55real));
    assert(num.close(top, mn, 55real));
    assert(den.value() * 2real >= d);
    lemma_not_degenerate(den);
    lemma_in_reach(num, den, top, mn);
    lemma_capped_quotient(num, den);
    let c = crate::momentum::capped(num.over(den).narrowed());
    let v = crate::momentum::fitted_velocity(samples, weights);
    assert(c == crate::momentum::capped(if vertical { v.1 } else { v.0 }));
    lemma_slope(c.value(), num.value() / den.value(), num.value(), den.value(), top, d, mn, md);
    let slope = e.slope();
    assert(slope * d == top) by (nonlinear_arith)
        requires
            slope == top / d,
            d > 0real,
    ;
    let cv = c.value();
    assert((slope - cv) * d == top - cv * d) by (nonlinear_arith)
        requires
            slope * d == top,
    ;
    assert((cv - slope) * d == cv * d - top) by (nonlinear_arith)
        requires
            slope * d == top,
    ;
}

proof fn lemma_product_close(
    a: Double,
    b: Double,
    x: real,
    y: real,
    m: real,
    n: real,
    k: int,
    low: int,
    high: int,
)
    requires
        0 <= k <= 16,
        -900 <= low,
        high <= 250,
        a.close(x, m, 10real + k as real),
        b.close(y, n, 10real + k as real),
        crate::ieee::close::ranged(m * n, low, high),
    ensures
        a.times(b).close(x * y, m * n, 54real),
{
    let j = 10real + k as real;
    a.lemma_close_more(x, m, j, 26real);
    b.lemma_close_more(y, n, j, 26real);
    crate::ieee::close::lemma_ranged_more(m * n, low, high, -900, 300);
    Double::law_product_is_close(a, b, x, y, m, n, 26real, 26real);
}

proof fn lemma_difference_close(
    a: Double,
    b: Double,
    x: real,
    y: real,
    m: real,
    n: real,
    low: int,
    high: int,
)
    requires
        -900 <= low,
        high <= 250,
        a.close(x, m, 54real),
        b.close(y, n, 54real),
        crate::ieee::close::ranged(m, low, high),
        crate::ieee::close::ranged(n, low, high),
    ensures
        a.minus(b).close(x - y, m + n, 55real),
        crate::ieee::close::ranged(m + n, low, high + 1),
{
    crate::ieee::close::lemma_ranged_sum(m, n, low, high);
    crate::ieee::close::lemma_ranged_more(m + n, low, high + 1, -900, 300);
    Double::law_difference_is_close(a, b, x, y, m, n, 54real);
}

/// A denominator of a good `2^-39` is not taken for a degenerate one.
proof fn lemma_not_degenerate(den: Double)
    requires
        den.is_finite(),
        den.value() * 549755813888real >= 1real,
    ensures
        !den.magnitude().less(Double::fraction(1, 1_000_000_000_000)),
{
    reveal(Double::less);
    reveal(Double::over);
    let f = Double::format();
    Double::lemma_format();
    lemma2_to64();
    lemma2_to64_rest();
    Double::law_integer_exact(1);
    Double::law_integer_exact(1_000_000_000_000);
    let d = Double::nearest(1_000_000_000_000real);
    f.lemma_zero_value(d.number());
    let x = 1real / 1_000_000_000_000real;
    let t = Format::exp2(-39);
    Format::lemma_exp2_shift(-39, 39);
    assert(549755813888real * t == 1real);
    Double::lemma_of_rounded(false, x, -39);
    f.lemma_zero_value(den.number());
    f.lemma_value_zero();
    f.lemma_value_increasing(0, den.number().code as nat);
    den.lemma_of_number();
    assert(den.magnitude() == den);
}

/// The quotient is far from overflowing the larger format.
proof fn lemma_in_reach(num: Double, den: Double, top: real, mn: real)
    requires
        num.close(top, mn, 55real),
        crate::ieee::close::ranged(mn, -179, 203),
        den.value() * 549755813888real >= 1real,
    ensures
        crate::ieee::error::size(num.value() / den.value()) <= Format::exp2(300),
{
    lemma2_to64();
    lemma2_to64_rest();
    let a = num.value();
    let b = den.value();
    let z = a / b;
    Format::lemma_exp2_step(203);
    Format::lemma_exp2_pos(203);
    Format::lemma_exp2_shift(204, 39);
    let e = Format::exp2(204);
    assert(crate::ieee::error::size(a) <= 2real * mn);
    assert(crate::ieee::error::size(a) <= e);
    assert(z * b == a) by (nonlinear_arith)
        requires
            z == a / b,
            b > 0real,
    ;
    let p = crate::ieee::error::size(z);
    assert(p * b <= e) by (nonlinear_arith)
        requires
            z * b == a,
            p == z || p == -z,
            -e <= a <= e,
    ;
    assert(p <= 549755813888real * e) by (nonlinear_arith)
        requires
            p * b <= e,
            b * 549755813888real >= 1real,
            p >= 0real,
    ;
    crate::ieee::close::lemma_power_order(243, 300);
}

/// A velocity near the rounded quotient satisfies the exact equation, but for rounding.
pub proof fn lemma_slope(
    v: real,
    z: real,
    num: real,
    den: real,
    top: real,
    d: real,
    mn: real,
    md: real,
)
    requires
        z == num / den,
        d > 0real,
        md >= 0real,
        d >= md / 1099511627776real,
        crate::ieee::error::size(den - d) * 1125899906842624real <= 55real * md,
        crate::ieee::error::size(num - top) * 1125899906842624real <= 55real * mn,
        v < 16000real ==> z <= v + (crate::ieee::error::size(v) / 4194304real + Format::exp2(
            -148,
        )),
        v > -16000real ==> z >= v - (crate::ieee::error::size(v) / 4194304real + Format::exp2(
            -148,
        )),
    ensures
        ({
            let e = crate::ieee::error::size(v) * d / 1048576real + d / 1152921504606846976real + (
            crate::ieee::error::size(v) * md + mn) / 1099511627776real;
            &&& v < 16000real ==> top - v * d <= e
            &&& v > -16000real ==> v * d - top <= e
        }),
{
    let a = crate::ieee::error::size(v);
    let least = Format::exp2(-148);
    Format::lemma_exp2_step(-150);
    Format::lemma_exp2_step(-149);
    Single::lemma_least();
    let t = a / 4194304real + least;
    let g = den - d;
    assert(den > 0real && den <= 2real * d);
    assert(z * den == num) by (nonlinear_arith)
        requires
            z == num / den,
            den > 0real,
    ;
    // What the velocity misses the quotient by.
    let ad = a * d;
    let am = a * md;
    let td = t * den;
    assert(0real <= td <= 2real * (t * d)) by (nonlinear_arith)
        requires
            td == t * den,
            0real <= den <= 2real * d,
            t >= 0real,
    ;
    assert(t * d == ad / 4194304real + least * d) by (nonlinear_arith)
        requires
            t == a / 4194304real + least,
            ad == a * d,
    ;
    assert(2real * (least * d) <= d / 1152921504606846976real) by {
        lemma_least_times(d);
    }
    // What the denominator misses the exact one by.
    let vg = v * g;
    let h = crate::ieee::error::size(g);
    assert(crate::ieee::error::size(vg) * 1125899906842624real <= 55real * am) by {
        assert(vg == a * h || vg == -(a * h)) by (nonlinear_arith)
            requires
                vg == v * g,
                v == a || v == -a,
                g == h || g == -h,
        ;
        assert(0real <= a * h && (a * h) * 1125899906842624real <= 55real * am)
            by (nonlinear_arith)
            requires
                a >= 0real,
                h >= 0real,
                h * 1125899906842624real <= 55real * md,
                am == a * md,
        ;
    }
    let vd = v * d;
    assert(v * den == vd + vg) by (nonlinear_arith)
        requires
            vg == v * g,
            vd == v * d,
            g == den - d,
    ;
    if v < 16000real {
        assert(num <= v * den + td) by (nonlinear_arith)
            requires
                z * den == num,
                z <= v + t,
                den > 0real,
                td == t * den,
        ;
    }
    if v > -16000real {
        assert(num >= v * den - td) by (nonlinear_arith)
            requires
                z * den == num,
                z >= v - t,
                den > 0real,
                td == t * den,
        ;
    }
    assert(am >= 0real) by (nonlinear_arith)
        requires
            am == a * md,
            a >= 0real,
            md >= 0real,
    ;
    assert(ad >= 0real) by (nonlinear_arith)
        requires
            ad == a * d,
            a >= 0real,
            d >= 0real,
    ;
}

/// A number times next to nothing.
proof fn lemma_least_times(d: real)
    requires
        d > 0real,
    ensures
        2real * (Format::exp2(-148) * d) <= d / 1152921504606846976real,
{
    lemma2_to64();
    lemma2_to64_rest();
    Format::lemma_exp2_shift(-148, 60);
    Format::lemma_exp2_shift(-88, 60);
    Format::lemma_exp2_shift(-28, 28);
    Format::lemma_exp2_pos(-88);
    let a = Format::exp2(-148);
    let b = Format::exp2(-88);
    let c = Format::exp2(-28);
    assert(268435456real * c == 1real);
    assert(b <= c) by (nonlinear_arith)
        requires
            c == 1152921504606846976real * b,
            b > 0real,
    ;
    assert(2real * (a * d) <= d / 1152921504606846976real) by (nonlinear_arith)
        requires
            b == 1152921504606846976real * a,
            2real * b <= 1real,
            d > 0real,
    ;
}

/// A denominator of less than `2^-41`, of terms of less than one, is taken for a degenerate
/// one.
pub proof fn lemma_degenerate(samples: Seq<Sample>, weights: Seq<Double>)
    requires
        is_fit_input(samples, weights),
        super::fit::exact_sums(observations(samples, weights, false)).denominator() <= 1real
            / 2199023255552real,
        denominator_size(super::fit::exact_sums(observations(samples, weights, false))) <= 1real,
        super::fit::exact_sums(observations(samples, weights, false)).denominator() >= 0real,
    ensures
        crate::momentum::fitted_velocity(samples, weights)
            == crate::momentum::difference_velocity(samples[0], samples.last()),
{
    reveal(Double::less);
    reveal(Double::over);
    let n = samples.len();
    let k = n as int;
    let obs = observations(samples, weights, false);
    assert(obs.take(k) =~= obs);
    assert(sizes(obs).take(k) =~= sizes(obs));
    let e = super::fit::exact_sums(obs);
    let m = super::fit::exact_sums(sizes(obs));
    lemma_sums_close(samples, weights, false, n);
    let s = crate::momentum::weighted_sums(samples, weights, n);
    let den = s.w.times(s.wt2).minus(s.wt.times(s.wt));
    crate::ieee::close::lemma_ranged_product(m.w, m.wt2, 0, 3 + k, -60, 75 + k);
    crate::ieee::close::lemma_ranged_product(m.wt, m.wt, -30, 39 + k, -30, 39 + k);
    crate::ieee::close::lemma_ranged_more(m.w * m.wt2, -60, 78 + 2 * k, -60, 110);
    crate::ieee::close::lemma_ranged_more(m.wt * m.wt, -60, 78 + 2 * k, -60, 110);
    lemma_product_close(s.w, s.wt2, e.w, e.wt2, m.w, m.wt2, k, -60, 110);
    lemma_product_close(s.wt, s.wt, e.wt, e.wt, m.wt, m.wt, k, -60, 110);
    lemma_difference_close(
        s.w.times(s.wt2),
        s.wt.times(s.wt),
        e.w * e.wt2,
        e.wt * e.wt,
        m.w * m.wt2,
        m.wt * m.wt,
        -60,
        110,
    );
    assert(den.close(e.denominator(), denominator_size(m), 55real));
    let f = Double::format();
    Double::lemma_format();
    lemma2_to64();
    lemma2_to64_rest();
    Double::law_integer_exact(1);
    Double::law_integer_exact(1_000_000_000_000);
    let d = Double::nearest(1_000_000_000_000real);
    f.lemma_zero_value(d.number());
    let x = 1real / 1_000_000_000_000real;
    let code = f.lemma_dyadic(1, -40);
    let t = Format::exp2(-40);
    Format::lemma_exp2_shift(-40, 40);
    assert(1real * t == t) by (nonlinear_arith);
    assert(1099511627776real * t == 1real);
    f.lemma_rounded_at_least(false, x, code);
    f.lemma_rounded_holds(false, x);
    Double::lemma_number_of(f.rounded(false, x));
    let abs = crate::ieee::number::Number { negative: false, code: den.number().code };
    Double::lemma_number_of(abs);
    f.lemma_value_zero();
    f.lemma_value_increasing(0, den.number().code as nat);
    assert(den.magnitude().value() == crate::ieee::error::size(den.value()));
}

} // verus!
