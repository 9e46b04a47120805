//! What the velocity estimate promises of finite samples, and of a ring that wrapped.

use vstd::prelude::*;
use vstd::arithmetic::power2::*;
use crate::ieee::double::Double;
use crate::ieee::format::Format;
use crate::ieee::single::Single;
use crate::momentum::{RecencyWeights, Ring, Sample, Sums, MAX_VELOCITY};

verus! {

/// A span in seconds is finite and positive, and one of 33 milliseconds or more is no
/// shorter than the number of the smaller format nearest to that.
pub proof fn lemma_seconds(nanos: nat)
    requires
        nanos <= u64::MAX,
    ensures
        crate::momentum::seconds_of(nanos).at_most(36),
        crate::momentum::seconds_of(nanos).value() >= 0real,
        nanos > 0 ==> crate::momentum::seconds_of(nanos).value() > 0real,
        nanos >= 33_000_000 ==> crate::momentum::seconds_of(nanos).value() >= 8858370real
            * Format::exp2(-28),
{
    reveal(Double::plus);
    reveal(Double::over);
    let f = Double::format();
    Double::lemma_format();
    lemma2_to64();
    let whole = nanos / 1_000_000_000;
    let rest = nanos % 1_000_000_000;
    Double::law_integer_exact(whole);
    Double::law_integer_exact(rest);
    Double::law_integer_exact(1_000_000_000);
    let a = Double::nearest(whole as real);
    let d = Double::nearest(1_000_000_000real);
    let b = Double::fraction(rest, 1_000_000_000);
    f.lemma_zero_value(d.number());
    let x = rest as real / 1_000_000_000real;
    assert(0real <= x <= 1real);
    Double::lemma_of_rounded(false, x, 0);
    assert(b == Double::of(f.rounded(false, x)));
    f.lemma_value_zero();
    f.lemma_rounded_at_least(false, x, 0);
    assert(a.at_most(35)) by {
        lemma2_to64_rest();
        assert(whole <= 18446744074);
    }
    b.lemma_at_most_more(0, 35);
    Double::law_sum_at_most(a, b, 35);
    let s = a.value() + b.value();
    Format::lemma_exp2_step(35);
    Double::lemma_of_rounded(a.number().negative && b.number().negative, s, 36);
    f.lemma_rounded_at_least(a.number().negative && b.number().negative, s, 0);
    // 2^-30 is below a nanosecond.
    let tiny = f.lemma_dyadic(1, -30);
    let t = Format::exp2(-30);
    Format::lemma_exp2_shift(-30, 30);
    assert(1real * t == t) by (nonlinear_arith);
    assert(1073741824real * t == 1real);
    if nanos > 0 {
        if rest > 0 {
            assert(rest as real >= 1real);
            assert(x >= 1real / 1_000_000_000real);
            assert(x >= t);
            f.lemma_rounded_at_least(false, x, tiny);
        } else {
            assert(whole >= 1);
        }
        assert(s >= t);
        f.lemma_rounded_at_least(a.number().negative && b.number().negative, s, tiny);
        Format::lemma_exp2_pos(-30);
    }
    let cap = f.lemma_dyadic(8858370, -28);
    let u = Format::exp2(-28);
    Format::lemma_exp2_shift(-28, 28);
    assert(268435456real * u == 1real);
    if nanos >= 33_000_000 {
        if whole == 0 {
            assert(x >= 33_000_000real / 1_000_000_000real);
            assert(x >= 8858370real * u);
            f.lemma_rounded_at_least(false, x, cap);
        } else {
            assert(a.value() >= 1real);
        }
        assert(s >= 8858370real * u);
        f.lemma_rounded_at_least(a.number().negative && b.number().negative, s, cap);
    }
}

/// Whether a sample was taken at a place.
pub open spec fn is_finite_sample(s: Sample) -> bool {
    s.x.is_finite() && s.y.is_finite()
}

/// A weight is a number above zero, and at most eight.
pub proof fn lemma_weight(w: Double)
    requires
        RecencyWeights::is_weight(w),
    ensures
        w.is_finite(),
        0real < w.value() <= 8real,
{
    reveal(Double::less);
    let f = Double::format();
    Double::lemma_format();
    f.lemma_value_zero();
    Double::law_integer_exact(8);
    let c = Double::nearest(8real).number().code as nat;
    f.lemma_value_increasing(c, f.infinity as nat);
    f.lemma_zero_value(w.number());
}

/// Finite samples have a finite velocity within the cap, on each axis by itself,
/// whenever they were taken: at the same instant or microseconds apart too.
pub proof fn law_velocity_is_finite(ring: Ring, now: u64, weights: RecencyWeights)
    requires
        ring.wf(),
        weights.wf(),
        forall|i: int|
            0 <= i < ring.samples.len() && (#[trigger] ring.samples[i]) is Some
                ==> is_finite_sample(ring.samples[i]->0),
    ensures
        ({
            let v = ring.velocity(now, weights);
            let max = MAX_VELOCITY as real;
            &&& v.0.is_finite() && -max <= v.0.value() <= max
            &&& v.1.is_finite() && -max <= v.1.value() <= max
        }),
{
    let slots = crate::momentum::recent_samples(ring.samples, now);
    let recent = ring.recent(now);
    lemma_recent_finite(ring.samples, now);
    lemma_by_time_finite(slots);
    super::lemma_by_time_len(slots);
    Single::lemma_format();
    Single::format().lemma_value_zero();
    if recent.len() >= 2 {
        let v = if recent.len() >= 3 {
            let n = recent.len() as int;
            assert forall|i: int| 0 <= i < n implies (#[trigger] weights.row(n)[i]).is_finite()
                && 0real <= weights.row(n)[i].value() <= 8real by {
                weights.lemma_weights(n, i);
                lemma_weight(weights.row(n)[i]);
            }
            lemma_fit_is_a_number(recent, weights.row(n));
            crate::momentum::fitted_velocity(recent, weights.row(recent.len() as int))
        } else {
            lemma_difference_is_a_number(recent[0], recent.last());
            crate::momentum::difference_velocity(recent[0], recent.last())
        };
        lemma_capped_is_finite(v.0);
        lemma_capped_is_finite(v.1);
    }
}

pub proof fn lemma_recent_finite(slots: Seq<Option<Sample>>, now: u64)
    requires
        forall|i: int|
            0 <= i < slots.len() && (#[trigger] slots[i]) is Some ==> is_finite_sample(
                slots[i]->0,
            ),
    ensures
        crate::momentum::recent_samples(slots, now).len() <= slots.len(),
        forall|i: int|
            0 <= i < crate::momentum::recent_samples(slots, now).len() ==> is_finite_sample(
                #[trigger] crate::momentum::recent_samples(slots, now)[i],
            ),
    decreases slots.len(),
{
    if slots.len() > 0 {
        lemma_recent_finite(slots.drop_last(), now);
        assert(slots[slots.len() - 1] == slots.last());
    }
}

proof fn lemma_insert_finite(sorted: Seq<Sample>, sample: Sample)
    requires
        is_finite_sample(sample),
        forall|i: int| 0 <= i < sorted.len() ==> is_finite_sample(#[trigger] sorted[i]),
    ensures
        forall|i: int|
            0 <= i < crate::momentum::insert_by_time(sorted, sample).len() ==> is_finite_sample(
                #[trigger] crate::momentum::insert_by_time(sorted, sample)[i],
            ),
    decreases sorted.len(),
{
    if sorted.len() > 0 && sorted.last().time > sample.time {
        let rest = sorted.drop_last();
        let r = crate::momentum::insert_by_time(rest, sample);
        assert forall|i: int| 0 <= i < rest.len() implies is_finite_sample(#[trigger] rest[i]) by {
            assert(is_finite_sample(sorted[i]));
        }
        lemma_insert_finite(rest, sample);
        assert forall|i: int| 0 <= i <= r.len() implies is_finite_sample(
            #[trigger] r.push(sorted.last())[i],
        ) by {
            assert(is_finite_sample(sorted[sorted.len() - 1]));
            if i < r.len() {
                assert(is_finite_sample(r[i]));
            }
        }
    } else {
        assert forall|i: int| 0 <= i <= sorted.len() implies is_finite_sample(
            #[trigger] sorted.push(sample)[i],
        ) by {
            if i < sorted.len() {
                assert(is_finite_sample(sorted[i]));
            }
        }
    }
}

pub proof fn lemma_by_time_finite(samples: Seq<Sample>)
    requires
        forall|i: int| 0 <= i < samples.len() ==> is_finite_sample(#[trigger] samples[i]),
    ensures
        forall|i: int|
            0 <= i < crate::momentum::by_time(samples).len() ==> is_finite_sample(
                #[trigger] crate::momentum::by_time(samples)[i],
            ),
    decreases samples.len(),
{
    if samples.len() > 0 {
        lemma_by_time_finite(samples.drop_last());
        assert(is_finite_sample(samples[samples.len() - 1]));
        lemma_insert_finite(crate::momentum::by_time(samples.drop_last()), samples.last());
    }
}

proof fn lemma_capped_is_finite(v: Single)
    requires
        !v.is_nan(),
    ensures
        crate::momentum::capped(v).is_finite(),
        -(MAX_VELOCITY as real) <= crate::momentum::capped(v).value() <= MAX_VELOCITY as real,
{
    let f = Single::format();
    Single::lemma_format();
    let max = Single::nearest(MAX_VELOCITY as real);
    Single::law_integer_exact(MAX_VELOCITY as nat);
    assert(max.opposite().value() == -max.value());
    Single::law_within_bounds(v, max.opposite(), max);
    let c = crate::momentum::capped(v).number();
    f.lemma_value_increasing(max.number().code as nat, f.infinity as nat);
    f.lemma_zero_value(c);
}

proof fn lemma_difference_is_a_number(first: Sample, last: Sample)
    requires
        is_finite_sample(first),
        is_finite_sample(last),
    ensures
        !crate::momentum::difference_velocity(first, last).0.is_nan(),
        !crate::momentum::difference_velocity(first, last).1.is_nan(),
{
    let nanos = crate::momentum::elapsed(last.time, first.time);
    let dt = crate::momentum::seconds_of(nanos);
    if nanos >= crate::momentum::MIN_SAMPLE_NANOS {
        lemma_seconds(nanos);
        lemma_quotient(last.x, first.x, dt);
        lemma_quotient(last.y, first.y, dt);
    }
}

proof fn lemma_quotient(a: Single, b: Single, dt: Double)
    requires
        a.is_finite(),
        b.is_finite(),
        dt.is_finite(),
        dt.value() > 0real,
    ensures
        !a.minus(b).widened().over(dt).narrowed().is_nan(),
{
    Single::law_difference_is_a_number(a, b);
    Single::law_widened_at_most(a.minus(b));
    Double::law_quotient_is_a_number(a.minus(b).widened(), dt);
    Double::law_narrowed_is_a_number(a.minus(b).widened().over(dt));
}

/// The sums of a fit stay far below overflow.
pub open spec fn are_bounded(s: Sums, k: int) -> bool {
    &&& s.w.at_most(3 + k)
    &&& s.wt.at_most(39 + k)
    &&& s.wt2.at_most(75 + k)
    &&& s.wx.at_most(131 + k)
    &&& s.wy.at_most(131 + k)
    &&& s.wtx.at_most(167 + k)
    &&& s.wty.at_most(167 + k)
}

proof fn lemma_zero_at_most(k: int)
    ensures
        Double::zero().at_most(k),
{
    Double::lemma_format();
    Double::format().lemma_value_zero();
    Format::lemma_exp2_pos(k);
}

/// One more term, no larger than the first bound.
proof fn lemma_term(sum: Double, term: Double, base: int, k: int)
    requires
        sum.at_most(base + k),
        term.at_most(base),
        0 <= base <= 200,
        0 <= k <= 16,
    ensures
        sum.plus(term).at_most(base + k + 1),
{
    term.lemma_at_most_more(base, base + k);
    Double::law_sum_at_most(sum, term, base + k);
}

proof fn lemma_sums_bounded(samples: Seq<Sample>, weights: Seq<Double>, k: nat)
    requires
        k <= samples.len() <= 16,
        forall|i: int| 0 <= i < samples.len() ==> is_finite_sample(#[trigger] samples[i]),
        forall|i: int|
            0 <= i < samples.len() ==> (#[trigger] weights[i]).is_finite() && 0real
                <= weights[i].value() <= 8real,
    ensures
        are_bounded(crate::momentum::weighted_sums(samples, weights, k), k as int),
    decreases k,
{
    if k == 0 {
        lemma_zero_at_most(3);
        lemma_zero_at_most(39);
        lemma_zero_at_most(75);
        lemma_zero_at_most(131);
        lemma_zero_at_most(167);
    } else {
        let j = k - 1;
        lemma_sums_bounded(samples, weights, j as nat);
        let s = crate::momentum::weighted_sums(samples, weights, j as nat);
        let sample = samples[j];
        let w = weights[j];
        let nanos = crate::momentum::elapsed(sample.time, samples[0].time);
        let t = crate::momentum::seconds_of(nanos);
        lemma_seconds(nanos);
        assert(w.at_most(3)) by {
            lemma2_to64();
        }
        assert(is_finite_sample(sample));
        Single::law_widened_at_most(sample.x);
        Single::law_widened_at_most(sample.y);
        let x = sample.x.widened();
        let y = sample.y.widened();
        let wt = w.times(t);
        Double::law_product_at_most(w, t, 3, 36);
        Double::law_product_at_most(wt, t, 39, 36);
        Double::law_product_at_most(w, x, 3, 128);
        Double::law_product_at_most(w, y, 3, 128);
        Double::law_product_at_most(wt, x, 39, 128);
        Double::law_product_at_most(wt, y, 39, 128);
        lemma_term(s.w, w, 3, j);
        lemma_term(s.wt, wt, 39, j);
        lemma_term(s.wt2, wt.times(t), 75, j);
        lemma_term(s.wx, w.times(x), 131, j);
        lemma_term(s.wy, w.times(y), 131, j);
        lemma_term(s.wtx, wt.times(x), 167, j);
        lemma_term(s.wty, wt.times(y), 167, j);
    }
}

/// What is not less than a billionth of a thousandth is not zero.
proof fn lemma_not_degenerate(denom: Double)
    requires
        denom.is_finite(),
        !denom.magnitude().less(Double::fraction(1, 1_000_000_000_000)),
    ensures
        denom.value() != 0real,
{
    reveal(Double::less);
    reveal(Double::over);
    let f = Double::format();
    Double::lemma_format();
    lemma2_to64();
    lemma2_to64_rest();
    Double::law_integer_exact(1);
    Double::law_integer_exact(1_000_000_000_000);
    let d = Double::nearest(1_000_000_000_000real);
    f.lemma_zero_value(d.number());
    let x = 1real / 1_000_000_000_000real;
    let code = f.lemma_dyadic(1, -40);
    let t = Format::exp2(-40);
    Format::lemma_exp2_shift(-40, 40);
    Format::lemma_exp2_pos(-40);
    assert(1real * t == t) by (nonlinear_arith);
    assert(1099511627776real * t == 1real);
    f.lemma_rounded_at_least(false, x, code);
    f.lemma_rounded_holds(false, x);
    Double::lemma_number_of(f.rounded(false, x));
    f.lemma_zero_value(denom.number());
}

proof fn lemma_fit_is_a_number(samples: Seq<Sample>, weights: Seq<Double>)
    requires
        1 <= samples.len() <= 16,
        forall|i: int| 0 <= i < samples.len() ==> is_finite_sample(#[trigger] samples[i]),
        forall|i: int|
            0 <= i < samples.len() ==> (#[trigger] weights[i]).is_finite() && 0real
                <= weights[i].value() <= 8real,
    ensures
        !crate::momentum::fitted_velocity(samples, weights).0.is_nan(),
        !crate::momentum::fitted_velocity(samples, weights).1.is_nan(),
{
    let n = samples.len();
    lemma_sums_bounded(samples, weights, n);
    let s = crate::momentum::weighted_sums(samples, weights, n);
    let k = n as int;
    Double::law_product_at_most(s.w, s.wt2, 3 + k, 75 + k);
    Double::law_product_at_most(s.wt, s.wt, 39 + k, 39 + k);
    Double::law_difference_at_most(s.w.times(s.wt2), s.wt.times(s.wt), 78 + 2 * k);
    let denom = s.w.times(s.wt2).minus(s.wt.times(s.wt));
    if denom.magnitude().less(Double::fraction(1, 1_000_000_000_000)) {
        assert(is_finite_sample(samples[n - 1]));
        lemma_difference_is_a_number(samples[0], samples.last());
    } else {
        lemma_not_degenerate(denom);
        Double::law_product_at_most(s.w, s.wtx, 3 + k, 167 + k);
        Double::law_product_at_most(s.wt, s.wx, 39 + k, 131 + k);
        Double::law_difference_at_most(s.w.times(s.wtx), s.wt.times(s.wx), 170 + 2 * k);
        Double::law_product_at_most(s.w, s.wty, 3 + k, 167 + k);
        Double::law_product_at_most(s.wt, s.wy, 39 + k, 131 + k);
        Double::law_difference_at_most(s.w.times(s.wty), s.wt.times(s.wy), 170 + 2 * k);
        let x = s.w.times(s.wtx).minus(s.wt.times(s.wx));
        let y = s.w.times(s.wty).minus(s.wt.times(s.wy));
        Double::law_quotient_is_a_number(x, denom);
        Double::law_quotient_is_a_number(y, denom);
        Double::law_narrowed_is_a_number(x.over(denom));
        Double::law_narrowed_is_a_number(y.over(denom));
    }
}

/// What can weigh a sample is a number above zero and at most eight, and every such number.
pub proof fn law_weights_are_above_zero_and_at_most_eight(w: Double)
    ensures
        RecencyWeights::is_weight(w) <==> !w.is_nan() && 0real < w.value() <= 8real,
{
    reveal(Double::less);
    Double::lemma_format();
    Double::format().lemma_value_zero();
    Double::law_integer_exact(8);
    assert(Double::zero().value() == 0real && !Double::zero().is_nan());
}

} // verus!
