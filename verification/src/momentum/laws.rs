//! What the velocity estimate and the glide promise.

pub mod axes;
pub mod fit;
pub mod glide;
pub mod length;
pub mod release;
pub mod ring;
pub mod slope;
pub mod velocity;

use vstd::prelude::*;
use crate::ieee::format::Format;
use crate::ieee::single::Single;
use super::{Decay, MomentumScroller, RecencyWeights, Ring, Sample, MAX_VELOCITY, MIN_VELOCITY};

verus! {

/// A tracker without samples, as after a reset, reports no velocity.
pub proof fn law_no_samples_no_velocity(now: u64, weights: RecencyWeights)
    ensures
        Ring::empty().velocity(now, weights) == (Single::zero(), Single::zero()),
{
    lemma_nothing_recent(Ring::empty().samples, now);
}

proof fn lemma_nothing_recent(slots: Seq<Option<Sample>>, now: u64)
    requires
        forall|i: int| 0 <= i < slots.len() ==> !super::is_recent(#[trigger] slots[i], now),
    ensures
        super::recent_samples(slots, now).len() == 0,
    decreases slots.len(),
{
    if slots.len() > 0 {
        lemma_nothing_recent(slots.drop_last(), now);
    }
}

/// Inserting adds one sample.
proof fn lemma_insert_len(sorted: Seq<Sample>, sample: Sample)
    ensures
        super::insert_by_time(sorted, sample).len() == sorted.len() + 1,
    decreases sorted.len(),
{
    if sorted.len() > 0 && sorted.last().time > sample.time {
        lemma_insert_len(sorted.drop_last(), sample);
    }
}

pub proof fn lemma_by_time_len(samples: Seq<Sample>)
    ensures
        super::by_time(samples).len() == samples.len(),
    decreases samples.len(),
{
    if samples.len() > 0 {
        lemma_by_time_len(samples.drop_last());
        lemma_insert_len(super::by_time(samples.drop_last()), samples.last());
    }
}

proof fn lemma_at_most_one_recent(slots: Seq<Option<Sample>>, now: u64, k: int)
    requires
        forall|i: int|
            0 <= i < slots.len() && i != k ==> !super::is_recent(#[trigger] slots[i], now),
    ensures
        super::recent_samples(slots, now).len() <= 1,
    decreases slots.len(),
{
    if slots.len() > 0 {
        if k == slots.len() - 1 {
            lemma_nothing_recent(slots.drop_last(), now);
        } else {
            lemma_at_most_one_recent(slots.drop_last(), now, k);
        }
    }
}

/// One sample gives no velocity.
pub proof fn law_one_sample_no_velocity(sample: Sample, now: u64, weights: RecencyWeights)
    ensures
        Ring::empty().recorded(sample).velocity(now, weights) == (Single::zero(), Single::zero()),
{
    let ring = Ring::empty().recorded(sample);
    lemma_at_most_one_recent(ring.samples, now, 0);
    lemma_by_time_len(super::recent_samples(ring.samples, now));
}

/// Samples are fitted in order of time, none is lost or invented, and those taken at
/// the same time keep their order.
pub proof fn law_by_time_sorts(samples: Seq<Sample>)
    ensures
        forall|i: int, j: int|
            0 <= i <= j < super::by_time(samples).len() ==> #[trigger] super::by_time(
                samples,
            )[i].time <= #[trigger] super::by_time(samples)[j].time,
        super::by_time(samples).to_multiset() =~= samples.to_multiset(),
        forall|time: u64|
            #[trigger] taken_at(super::by_time(samples), time) == taken_at(samples, time),
    decreases samples.len(),
{
    broadcast use vstd::seq_lib::group_to_multiset_ensures;

    if samples.len() > 0 {
        let rest = samples.drop_last();
        law_by_time_sorts(rest);
        let sorted = super::by_time(rest);
        lemma_insert_sorts(sorted, samples.last());
        assert(samples =~= rest.push(samples.last()));
        assert forall|time: u64| #[trigger]
            taken_at(super::by_time(samples), time) == taken_at(samples, time) by {
            lemma_insert_stable(sorted, samples.last(), time);
            assert(taken_at(sorted, time) == taken_at(rest, time));
            assert(sorted.push(samples.last()).drop_last() =~= sorted);
        }
    }
}

/// The samples taken at a given time, in order.
pub open spec fn taken_at(samples: Seq<Sample>, time: u64) -> Seq<Sample>
    decreases samples.len(),
{
    if samples.len() == 0 {
        Seq::empty()
    } else {
        let rest = taken_at(samples.drop_last(), time);
        if samples.last().time == time {
            rest.push(samples.last())
        } else {
            rest
        }
    }
}

proof fn lemma_insert_sorts(sorted: Seq<Sample>, sample: Sample)
    requires
        forall|i: int, j: int| 0 <= i <= j < sorted.len() ==> sorted[i].time <= sorted[j].time,
    ensures
        ({
            let r = super::insert_by_time(sorted, sample);
            &&& forall|i: int, j: int| 0 <= i <= j < r.len() ==> r[i].time <= r[j].time
            &&& r.to_multiset() =~= sorted.push(sample).to_multiset()
            &&& r.len() == sorted.len() + 1
            &&& forall|i: int|
                0 <= i < r.len() ==> #[trigger] r[i].time <= sample.time || (sorted.len() > 0
                    && r[i].time <= sorted.last().time)
        }),
    decreases sorted.len(),
{
    broadcast use vstd::seq_lib::group_to_multiset_ensures;

    if sorted.len() > 0 && sorted.last().time > sample.time {
        let rest = sorted.drop_last();
        lemma_insert_sorts(rest, sample);
        assert(sorted =~= rest.push(sorted.last()));
    }
}

proof fn lemma_insert_stable(sorted: Seq<Sample>, sample: Sample, time: u64)
    requires
        forall|i: int, j: int| 0 <= i <= j < sorted.len() ==> sorted[i].time <= sorted[j].time,
    ensures
        taken_at(super::insert_by_time(sorted, sample), time) == taken_at(
            sorted.push(sample),
            time,
        ),
    decreases sorted.len(),
{
    if sorted.len() > 0 && sorted.last().time > sample.time {
        let rest = sorted.drop_last();
        lemma_insert_stable(rest, sample, time);
        let r = super::insert_by_time(rest, sample);
        assert(r.push(sorted.last()).drop_last() =~= r);
        assert(rest.push(sample).drop_last() =~= rest);
        assert(sorted.push(sample).drop_last() =~= sorted);
        reveal_with_fuel(taken_at, 3);
    }
}

/// A reported velocity component is a number within the cap, or not a number.
pub proof fn law_velocity_capped(ring: Ring, now: u64, weights: RecencyWeights)
    ensures
        ({
            let v = ring.velocity(now, weights);
            let max = MAX_VELOCITY as real;
            &&& v.0.is_nan() || -max <= v.0.value() <= max
            &&& v.1.is_nan() || -max <= v.1.value() <= max
        }),
{
    Single::lemma_format();
    Single::format().lemma_value_zero();
    let recent = ring.recent(now);
    let v = if recent.len() >= 3 {
        super::fitted_velocity(recent, weights.row(recent.len() as int))
    } else {
        super::difference_velocity(recent[0], recent.last())
    };
    lemma_capped(v.0);
    lemma_capped(v.1);
}

proof fn lemma_capped(v: Single)
    ensures
        ({
            let c = super::capped(v);
            c.is_nan() || -(MAX_VELOCITY as real) <= c.value() <= MAX_VELOCITY as real
        }),
{
    let max = Single::nearest(MAX_VELOCITY as real);
    Single::law_integer_exact(MAX_VELOCITY as nat);
    assert(max.opposite().value() == -max.value());
    if !v.is_nan() {
        Single::law_within_bounds(v, max.opposite(), max);
    }
}

/// A release slower than the minimum does not glide.
pub proof fn law_slow_release_does_not_glide(
    s: MomentumScroller,
    vx: Single,
    vy: Single,
    now: u64,
    frame: u64,
    decay: Decay,
)
    requires
        super::speed_of(vx, vy).less(Single::nearest(MIN_VELOCITY as real)),
    ensures
        !s.flung(vx, vy, now).active,
        s.flung(vx, vy, now).moved(frame, decay) is None,
{
}

/// A cancelled glide moves nothing, and never resumes by itself.
pub proof fn law_cancel_stops_the_glide(s: MomentumScroller, frame: u64, decay: Decay)
    ensures
        s.cancelled().moved(frame, decay) is None,
        s.cancelled().stepped(frame, decay) == s.cancelled(),
{
}

/// Nothing is reported exactly when the glide is over: where a frame gives no
/// displacement the scroller is idle, and stays so without a new fling.
pub proof fn law_none_means_settled(
    s: MomentumScroller,
    frame: u64,
    decay: Decay,
    later: u64,
    other: Decay,
)
    requires
        s.moved(frame, decay) is None,
    ensures
        !s.stepped(frame, decay).active,
        s.stepped(frame, decay).moved(later, other) is None,
        s.stepped(frame, decay).stepped(later, other) == s.stepped(frame, decay),
{
}

/// A frame never speeds either component up, as long as its decay factor is between
/// zero and one.
pub proof fn law_glide_decelerates(s: MomentumScroller, frame: u64, decay: Decay)
    requires
        s.vx.is_finite(),
        s.vy.is_finite(),
        decay.factor.is_finite(),
        0real <= decay.factor.value() <= 1real,
    ensures
        ({
            let t = s.stepped(frame, decay);
            &&& t.vx.is_finite() && t.vx.magnitude().value() <= s.vx.magnitude().value()
            &&& t.vy.is_finite() && t.vy.magnitude().value() <= s.vy.magnitude().value()
        }),
{
    Single::law_product_shrinks(s.vx, decay.factor);
    Single::law_product_shrinks(s.vy, decay.factor);
}

/// A frame moves the content the way it was going: where the decay factor is between
/// zero and one and the decay rate's logarithm is negative, no component of the
/// displacement has the sign opposite to that of the velocity.
pub proof fn law_glide_moves_with_the_velocity(s: MomentumScroller, frame: u64, decay: Decay)
    requires
        decay.factor.is_finite(),
        0real <= decay.factor.value() <= 1real,
        decay.log_rate.is_finite(),
        decay.log_rate.value() < 0real,
        Single::fraction(1, 1_000_000_000).less(decay.log_rate.magnitude()),
    ensures
        ({
            let step = s.displacement(frame, decay);
            &&& !step.dx.is_nan() ==> {
                &&& s.vx.value() >= 0real ==> step.dx.value() >= 0real
                &&& s.vx.value() <= 0real ==> step.dx.value() <= 0real
            }
            &&& !step.dy.is_nan() ==> {
                &&& s.vy.value() >= 0real ==> step.dy.value() >= 0real
                &&& s.vy.value() <= 0real ==> step.dy.value() <= 0real
            }
        }),
{
    let d = s.displacement_factor(frame, decay);
    let step = s.displacement(frame, decay);
    if !step.dx.is_nan() {
        lemma_product_of_nan(s.vx, d);
        lemma_displacement_factor(decay);
        Single::law_product_sign(s.vx, d);
    }
    if !step.dy.is_nan() {
        lemma_product_of_nan(s.vy, d);
        lemma_displacement_factor(decay);
        Single::law_product_sign(s.vy, d);
    }
}

proof fn lemma_product_of_nan(a: Single, b: Single)
    requires
        !a.times(b).is_nan(),
    ensures
        !a.is_nan(),
        !b.is_nan(),
{
    reveal(Single::times);
    Single::lemma_format();
    Single::lemma_number_of(Single::format().quiet_nan());
}

proof fn lemma_displacement_factor(decay: Decay)
    requires
        decay.factor.is_finite(),
        0real <= decay.factor.value() <= 1real,
        decay.log_rate.is_finite(),
        decay.log_rate.value() < 0real,
        !decay.factor.minus(Single::nearest(1real)).over(
            decay.log_rate.times(Single::nearest(1000real)),
        ).is_nan(),
    ensures
        decay.factor.minus(Single::nearest(1real)).over(
            decay.log_rate.times(Single::nearest(1000real)),
        ).value() >= 0real,
{
    reveal(Single::minus);
    reveal(Single::times);
    let f = Single::format();
    Single::lemma_format();
    let one = Single::nearest(1real);
    let thousand = Single::nearest(1000real);
    Single::law_integer_exact(1);
    Single::law_integer_exact(1000);
    let x = decay.factor.value() - 1real;
    let z = decay.factor.number().negative && !one.number().negative;
    f.lemma_rounded_holds(z, x);
    f.lemma_zero_value(f.rounded(z, x));
    Single::lemma_number_of(f.rounded(z, x));
    let l = decay.log_rate.value();
    let y = l * 1000real;
    let w = decay.log_rate.number().negative != thousand.number().negative;
    f.lemma_rounded_holds(w, y);
    Single::lemma_number_of(f.rounded(w, y));
    Single::law_quotient_sign(decay.factor.minus(one), decay.log_rate.times(thousand));
}

/// A frame that decays at all: its factor is between zero and `1 - 2^-23`, and it
/// does not come too soon after the one before.
pub open spec fn decays(s: MomentumScroller, frame: (u64, Decay)) -> bool {
    &&& frame.1.factor.is_finite()
    &&& 0real <= frame.1.factor.value()
    &&& frame.1.factor.value() + Format::exp2(-23) <= 1real
    &&& !s.is_too_soon(frame.0)
}

/// The scroller after a run of frames.
pub open spec fn after(s: MomentumScroller, frames: Seq<(u64, Decay)>) -> MomentumScroller
    decreases frames.len(),
{
    if frames.len() == 0 {
        s
    } else {
        after(s.stepped(frames[0].0, frames[0].1), frames.drop_first())
    }
}

/// Every frame of a run decays.
pub open spec fn all_decay(s: MomentumScroller, frames: Seq<(u64, Decay)>) -> bool
    decreases frames.len(),
{
    frames.len() > 0 ==> decays(s, frames[0]) && all_decay(
        s.stepped(frames[0].0, frames[0].1),
        frames.drop_first(),
    )
}

/// A glide settles: after enough decaying frames it is over, whatever velocity it
/// started with.
pub proof fn law_glide_settles(s: MomentumScroller, frames: Seq<(u64, Decay)>)
    requires
        s.vx.is_finite(),
        s.vy.is_finite(),
        all_decay(s, frames),
        frames.len() > s.vx.number().code + s.vy.number().code,
    ensures
        !after(s, frames).active,
    decreases frames.len(),
{
    let frame = frames[0];
    let t = s.stepped(frame.0, frame.1);
    let rest = frames.drop_first();
    if !s.active {
        lemma_stays_idle(s, frames);
    } else {
        let k = frame.1.factor;
        Format::lemma_exp2_pos(-23);
        Single::law_product_shrinks(s.vx, k);
        Single::law_product_shrinks(s.vy, k);
        if !t.active {
            lemma_stays_idle(t, rest);
        } else if s.vx.number().code >= 0x80_0000 {
            Single::law_product_shrinks_strictly(s.vx, k);
            law_glide_settles(t, rest);
        } else if s.vy.number().code >= 0x80_0000 {
            Single::law_product_shrinks_strictly(s.vy, k);
            law_glide_settles(t, rest);
        } else {
            lemma_tiny_is_settled(t.vx, t.vy);
        }
    }
}

pub proof fn lemma_stays_idle(s: MomentumScroller, frames: Seq<(u64, Decay)>)
    requires
        !s.active,
    ensures
        !after(s, frames).active,
    decreases frames.len(),
{
    if frames.len() > 0 {
        lemma_stays_idle(s, frames.drop_first());
    }
}

proof fn lemma_tiny_is_settled(vx: Single, vy: Single)
    requires
        vx.number().code < 0x80_0000,
        vy.number().code < 0x80_0000,
    ensures
        super::is_settled(vx, vy),
{
    reveal(Single::plus);
    reveal(Single::root);
    reveal(Single::less);
    let f = Single::format();
    Single::lemma_format();
    Single::law_subnormal_square_vanishes(vx);
    Single::law_subnormal_square_vanishes(vy);
    f.lemma_value_zero();
    Single::law_integer_exact(MIN_VELOCITY as nat);
}

} // verus!
