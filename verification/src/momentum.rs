//! Inertial scrolling for touch drags: velocity capture and decay.
//!
//! When a finger drags and lifts, the content keeps gliding with a decelerating
//! velocity. [`VelocityTracker`] records recent drag samples and estimates the
//! release velocity when the finger lifts; [`MomentumScroller`] takes that velocity
//! and yields decelerating displacements, one per frame, until it settles.
//!
//! Time is handed in, as nanoseconds of the caller's monotonic clock, and so are the
//! two transcendental functions that the estimates rest on: the exponential behind
//! [`RecencyWeights`] and the power and logarithm in [`Decay`].

pub mod laws;

use vstd::prelude::*;
use vstd::std_specs::cmp::PartialEqSpecImpl;
use crate::ieee::double::Double;
use crate::ieee::single::Single;

verus! {

/// Below this speed (logical px/s) a fling is considered finished.
pub const MIN_VELOCITY: u64 = 30;

/// Upper bound (logical px/s) on a captured fling velocity, so that a near-zero
/// sample interval cannot synthesize an absurd one.
pub const MAX_VELOCITY: u64 = 16000;

/// Capacity of the recent-sample ring used for velocity estimation.
pub const MAX_SAMPLES: usize = 16;

/// Only samples at most this old (nanoseconds) feed the velocity fit, so a slow
/// drag start cannot dilute the fast release that determines the fling.
pub const VELOCITY_WINDOW_NANOS: u64 = 100_000_000;

/// Fewer recent samples than this give no meaningful velocity.
pub const MIN_SAMPLES_FOR_VELOCITY: usize = 2;

/// Samples closer together than this (nanoseconds) give no meaningful difference.
pub const MIN_SAMPLE_NANOS: u64 = 1000;

/// Cap on a single frame's interval (milliseconds), so that a stall cannot teleport
/// the content on the next step.
pub const MAX_STEP_MILLIS: u64 = 33;

/// A span of time in seconds: whole seconds plus the fraction.
pub open spec fn seconds_of(nanos: nat) -> Double {
    Double::nearest((nanos / 1_000_000_000) as real).plus(
        Double::fraction(nanos % 1_000_000_000, 1_000_000_000),
    )
}

pub fn seconds(nanos: u64) -> (r: Double)
    ensures
        r == seconds_of(nanos as nat),
{
    Double::from_integer(nanos / 1_000_000_000).add(
        Double::from_fraction(nanos % 1_000_000_000, 1_000_000_000),
    )
}

/// How long before `now` `then` was; zero where it was not before.
pub open spec fn elapsed(now: u64, then: u64) -> nat {
    if now >= then {
        (now - then) as nat
    } else {
        0
    }
}

fn since(now: u64, then: u64) -> (d: u64)
    ensures
        d == elapsed(now, then),
{
    if now >= then {
        now - then
    } else {
        0
    }
}

/// A recorded drag sample: a position in logical pixels and when it was taken.
#[derive(Clone, Copy, Debug, PartialEq)]
pub struct Sample {
    pub x: Single,
    pub y: Single,
    pub time: u64,
}

/// Whether a table of sixteen weights for each number of samples is valid: as many as
/// there are samples are weights, and the rest is not used.
pub open spec fn are_weights(values: Seq<Double>) -> bool {
    &&& values.len() == 256
    &&& forall|k: int|
        0 <= k < 256 && k % 16 <= k / 16 ==> RecencyWeights::is_weight(#[trigger] values[k])
}

/// The recency weights of the velocity fit: for every number `n` of samples up to
/// the ring's capacity, and every sample `i` of them, the weight `e^(2i/n)`.
#[derive(Debug)]
pub struct RecencyWeights {
    values: Vec<Double>,
}

impl RecencyWeights {
    /// The weights of a fit over `n` samples.
    pub closed spec fn row(self, n: int) -> Seq<Double> {
        self.values@.subrange((n - 1) * 16, n * 16)
    }

    /// Every weight that a fit uses is one.
    pub closed spec fn wf(self) -> bool {
        are_weights(self.values@)
    }

    /// Whether a number can weigh a sample: it is positive, and at most eight.
    pub open spec fn is_weight(w: Double) -> bool {
        Double::zero().less(w) && !Double::nearest(8real).less(w)
    }

    /// The weights of a valid table are weights.
    pub proof fn lemma_weights(self, n: int, i: int)
        requires
            self.wf(),
            1 <= n <= 16,
            0 <= i < n,
        ensures
            Self::is_weight(self.row(n)[i]),
    {
        let k = (n - 1) * 16 + i;
        assert(k % 16 == i && k / 16 == n - 1);
        assert(Self::is_weight(self.values@[k]));
    }

    /// The exponent whose exponential weighs sample `i` of `n`.
    pub open spec fn exponent(n: int, i: int) -> Double {
        Double::nearest(2real).times(Double::nearest(i as real)).over(Double::nearest(n as real))
    }

    /// The exponents of all weights, sixteen for each number of samples.
    pub fn exponents() -> (v: Vec<Double>)
        ensures
            v@.len() == 256,
            forall|n: int, i: int| 1 <= n <= 16 && 0 <= i < 16 ==> #[trigger] v@[(n - 1) * 16 + i]
                == Self::exponent(n, i),
    {
        let mut v: Vec<Double> = Vec::new();
        let mut k: u64 = 0;
        while k < 256
            invariant
                k <= 256,
                v@.len() == k,
                forall|j: int| 0 <= j < k ==> #[trigger] v@[j] == Self::exponent(
                    j / 16 + 1,
                    j % 16,
                ),
            decreases 256 - k,
        {
            let x = Double::from_integer(2).mul(Double::from_integer(k % 16)).div(
                Double::from_integer(k / 16 + 1),
            );
            v.push(x);
            k = k + 1;
        }
        v
    }

    /// The table of weights, from the exponentials of [`RecencyWeights::exponents`]
    /// in the same order. `None` where these are not as many, or where one that a fit
    /// uses is no weight.
    pub fn from_values(values: Vec<Double>) -> (r: Option<RecencyWeights>)
        ensures
            r is Some <==> are_weights(values@),
            r matches Some(w) ==> w.wf() && forall|n: int, i: int|
                1 <= n <= 16 && 0 <= i < 16 ==> #[trigger] w.row(n)[i] == values@[(n - 1) * 16 + i],
    {
        if values.len() != 256 {
            return None;
        }
        let zero = Double::from_bits(0);
        let most = Double::from_integer(8);
        let mut k: usize = 0;
        while k < 256
            invariant
                k <= 256,
                values@.len() == 256,
                zero == Double::zero(),
                most == Double::nearest(8real),
                forall|j: int|
                    0 <= j < k && j % 16 <= j / 16 ==> Self::is_weight(#[trigger] values@[j]),
            decreases 256 - k,
        {
            if k % 16 <= k / 16 && !(zero.lt(values[k]) && !most.lt(values[k])) {
                assert(!Self::is_weight(values@[k as int]));
                return None;
            }
            k = k + 1;
        }
        Some(RecencyWeights { values })
    }

    fn weight(&self, n: usize, i: usize) -> (w: Double)
        requires
            self.wf(),
            1 <= n <= 16,
            i < n,
        ensures
            w == self.row(n as int)[i as int],
    {
        self.values[(n - 1) * 16 + i]
    }
}

/// What a [`VelocityTracker`] holds: a ring of samples and where the next one goes.
#[verifier::ext_equal]
pub struct Ring {
    pub samples: Seq<Option<Sample>>,
    pub next: int,
}

/// Whether a slot of the ring feeds the fit.
pub open spec fn is_recent(slot: Option<Sample>, now: u64) -> bool {
    slot is Some && elapsed(now, slot->0.time) <= VELOCITY_WINDOW_NANOS
}

/// The recent samples of a stretch of the ring, in ring order.
pub open spec fn recent_samples(slots: Seq<Option<Sample>>, now: u64) -> Seq<Sample>
    decreases slots.len(),
{
    if slots.len() == 0 {
        Seq::empty()
    } else {
        let rest = recent_samples(slots.drop_last(), now);
        if is_recent(slots.last(), now) {
            rest.push(slots.last()->0)
        } else {
            rest
        }
    }
}

/// `sample` put behind everything taken no later than it.
pub open spec fn insert_by_time(sorted: Seq<Sample>, sample: Sample) -> Seq<Sample>
    decreases sorted.len(),
{
    if sorted.len() == 0 || sorted.last().time <= sample.time {
        sorted.push(sample)
    } else {
        insert_by_time(sorted.drop_last(), sample).push(sorted.last())
    }
}

/// The samples in order of time; those taken at the same time keep their order.
pub open spec fn by_time(samples: Seq<Sample>) -> Seq<Sample>
    decreases samples.len(),
{
    if samples.len() == 0 {
        samples
    } else {
        insert_by_time(by_time(samples.drop_last()), samples.last())
    }
}

/// The weighted sums of a least-squares fit of position over time.
pub struct Sums {
    pub w: Double,
    pub wt: Double,
    pub wt2: Double,
    pub wx: Double,
    pub wy: Double,
    pub wtx: Double,
    pub wty: Double,
}

/// The sums over the first `k` samples.
pub open spec fn weighted_sums(samples: Seq<Sample>, weights: Seq<Double>, k: nat) -> Sums
    decreases k,
{
    if k == 0 {
        let z = Double::zero();
        Sums { w: z, wt: z, wt2: z, wx: z, wy: z, wtx: z, wty: z }
    } else {
        let s = weighted_sums(samples, weights, (k - 1) as nat);
        let sample = samples[k - 1];
        let w = weights[k - 1];
        let t = seconds_of(elapsed(sample.time, samples[0].time));
        let x = sample.x.widened();
        let y = sample.y.widened();
        Sums {
            w: s.w.plus(w),
            wt: s.wt.plus(w.times(t)),
            wt2: s.wt2.plus(w.times(t).times(t)),
            wx: s.wx.plus(w.times(x)),
            wy: s.wy.plus(w.times(y)),
            wtx: s.wtx.plus(w.times(t).times(x)),
            wty: s.wty.plus(w.times(t).times(y)),
        }
    }
}

/// The velocity from the first to the last sample, or none where they coincide.
pub open spec fn difference_velocity(first: Sample, last: Sample) -> (Single, Single) {
    let nanos = elapsed(last.time, first.time);
    if nanos < MIN_SAMPLE_NANOS {
        (Single::zero(), Single::zero())
    } else {
        let dt = seconds_of(nanos);
        (
            last.x.minus(first.x).widened().over(dt).narrowed(),
            last.y.minus(first.y).widened().over(dt).narrowed(),
        )
    }
}

/// The slope of the weighted least-squares line through the samples, every operation
/// rounded, or the plain difference where the normal equations are degenerate. That the
/// quotient is that slope is shown in [`laws::fit`].
pub open spec fn fitted_velocity(samples: Seq<Sample>, weights: Seq<Double>) -> (Single, Single) {
    let s = weighted_sums(samples, weights, samples.len());
    let denom = s.w.times(s.wt2).minus(s.wt.times(s.wt));
    if denom.magnitude().less(Double::fraction(1, 1_000_000_000_000)) {
        difference_velocity(samples[0], samples.last())
    } else {
        (
            s.w.times(s.wtx).minus(s.wt.times(s.wx)).over(denom).narrowed(),
            s.w.times(s.wty).minus(s.wt.times(s.wy)).over(denom).narrowed(),
        )
    }
}

/// A velocity component brought into `[-MAX_VELOCITY, MAX_VELOCITY]`.
pub open spec fn capped(v: Single) -> Single {
    let max = Single::nearest(MAX_VELOCITY as real);
    v.within(max.opposite(), max)
}

impl Ring {
    pub open spec fn wf(self) -> bool {
        self.samples.len() == MAX_SAMPLES && 0 <= self.next < MAX_SAMPLES
    }

    pub open spec fn empty() -> Ring {
        Ring { samples: Seq::new(16, |i: int| None::<Sample>), next: 0 }
    }

    /// The ring with one more sample, in place of the oldest once it is full.
    pub open spec fn recorded(self, sample: Sample) -> Ring {
        Ring {
            samples: self.samples.update(self.next, Some(sample)),
            next: if self.next + 1 == MAX_SAMPLES { 0 } else { self.next + 1 },
        }
    }

    /// The samples that feed the fit, in order of time.
    pub open spec fn recent(self, now: u64) -> Seq<Sample> {
        by_time(recent_samples(self.samples, now))
    }

    /// The release velocity at `now`.
    pub open spec fn velocity(self, now: u64, weights: RecencyWeights) -> (Single, Single) {
        let recent = self.recent(now);
        if recent.len() < MIN_SAMPLES_FOR_VELOCITY {
            (Single::zero(), Single::zero())
        } else {
            let v = if recent.len() >= 3 {
                fitted_velocity(recent, weights.row(recent.len() as int))
            } else {
                difference_velocity(recent[0], recent.last())
            };
            (capped(v.0), capped(v.1))
        }
    }
}

/// Records recent drag positions and estimates the finger-lift velocity.
///
/// Call [`record`](Self::record) on every touch-move, then
/// [`velocity`](Self::velocity) on finger-up to obtain the fling velocity in
/// logical px/s.
#[derive(Debug)]
pub struct VelocityTracker {
    samples: [Option<Sample>; 16],
    /// Next write index into the ring.
    index: usize,
}

impl View for VelocityTracker {
    type V = Ring;

    closed spec fn view(&self) -> Ring {
        Ring { samples: self.samples@, next: self.index as int }
    }
}

impl Default for VelocityTracker {
    fn default() -> (t: Self)
        ensures
            t@ == Ring::empty(),
    {
        let t = VelocityTracker { samples: [None; 16], index: 0 };
        assert(t@ =~= Ring::empty());
        t
    }
}

impl VelocityTracker {
    /// An empty tracker.
    pub fn new() -> (t: Self)
        ensures
            t@ == Ring::empty(),
            t@.wf(),
    {
        Self::default()
    }

    /// Records a drag position (logical px). Call on every move.
    pub fn record(&mut self, x: Single, y: Single, now: u64)
        requires
            old(self)@.wf(),
        ensures
            final(self)@ == old(self)@.recorded(Sample { x, y, time: now }),
            final(self)@.wf(),
    {
        self.samples[self.index] = Some(Sample { x, y, time: now });
        self.index = (self.index + 1) % MAX_SAMPLES;
    }

    /// Clears all samples for a fresh gesture.
    pub fn reset(&mut self)
        ensures
            final(self)@ == Ring::empty(),
            final(self)@.wf(),
    {
        self.samples = [None; 16];
        self.index = 0;
        assert(self@ =~= Ring::empty());
    }

    /// The recent samples, in order of time.
    fn recent(&self, now: u64) -> (v: Vec<Sample>)
        requires
            self@.wf(),
        ensures
            v@ == self@.recent(now),
            v@.len() <= MAX_SAMPLES,
    {
        let mut v: Vec<Sample> = Vec::new();
        let mut i: usize = 0;
        let ghost slots = self@.samples;
        while i < MAX_SAMPLES
            invariant
                i <= MAX_SAMPLES,
                slots == self@.samples,
                slots.len() == MAX_SAMPLES,
                v@ == by_time(recent_samples(slots.take(i as int), now)),
                v@.len() <= i,
            decreases MAX_SAMPLES - i,
        {
            proof {
                assert(slots.take(i + 1).drop_last() =~= slots.take(i as int));
                assert(slots.take(i + 1).last() == slots[i as int]);
            }
            let slot = self.samples[i];
            if let Some(sample) = slot {
                if since(now, sample.time) <= VELOCITY_WINDOW_NANOS {
                    proof {
                        let before = recent_samples(slots.take(i as int), now);
                        assert(before.push(sample).drop_last() =~= before);
                    }
                    insert_sample(&mut v, sample);
                }
            }
            i = i + 1;
        }
        assert(slots.take(16) =~= slots);
        v
    }

    /// Estimates the release velocity `(vx, vy)` in logical px/s.
    ///
    /// Uses a recency-weighted least-squares fit over the samples of the window
    /// (three or more), so the estimate reflects the fast end of the gesture; falls
    /// back to the difference of first and last for two. Zero where too few recent
    /// samples exist.
    pub fn velocity(&self, now: u64, weights: &RecencyWeights) -> (v: (Single, Single))
        requires
            self@.wf(),
            weights.wf(),
        ensures
            v == self@.velocity(now, *weights),
    {
        let recent = self.recent(now);
        if recent.len() < MIN_SAMPLES_FOR_VELOCITY {
            return (Single::from_bits(0), Single::from_bits(0));
        }
        let (vx, vy) = if recent.len() >= 3 {
            weighted_velocity(&recent, weights)
        } else {
            plain_velocity(recent[0], recent[recent.len() - 1])
        };
        (clamp_velocity(vx), clamp_velocity(vy))
    }
}

proof fn lemma_insert_position(sorted: Seq<Sample>, sample: Sample, i: int)
    requires
        0 <= i <= sorted.len(),
        i == 0 || sorted[i - 1].time <= sample.time,
        forall|j: int| i <= j < sorted.len() ==> sorted[j].time > sample.time,
    ensures
        insert_by_time(sorted, sample) == sorted.insert(i, sample),
    decreases sorted.len(),
{
    if i < sorted.len() {
        lemma_insert_position(sorted.drop_last(), sample, i);
        assert(sorted.insert(i, sample) =~= sorted.drop_last().insert(i, sample).push(
            sorted.last(),
        ));
    } else {
        assert(sorted.insert(i, sample) =~= sorted.push(sample));
    }
}

/// Inserts a sample behind everything taken no later than it.
fn insert_sample(v: &mut Vec<Sample>, sample: Sample)
    ensures
        final(v)@ == insert_by_time(old(v)@, sample),
        final(v)@.len() == old(v)@.len() + 1,
{
    let mut i: usize = v.len();
    while i > 0 && v[i - 1].time > sample.time
        invariant
            i <= v@.len(),
            forall|j: int| i <= j < v@.len() ==> v@[j].time > sample.time,
        decreases i,
    {
        i = i - 1;
    }
    proof {
        lemma_insert_position(v@, sample, i as int);
    }
    v.insert(i, sample);
}

/// The difference quotient of two samples.
fn plain_velocity(first: Sample, last: Sample) -> (v: (Single, Single))
    ensures
        v == difference_velocity(first, last),
{
    let nanos = since(last.time, first.time);
    if nanos < MIN_SAMPLE_NANOS {
        return (Single::from_bits(0), Single::from_bits(0));
    }
    let dt = seconds(nanos);
    (
        last.x.sub(first.x).to_double().div(dt).to_single(),
        last.y.sub(first.y).to_double().div(dt).to_single(),
    )
}

/// Recency-weighted least-squares velocity: the weights bias the fit toward the
/// newest (fastest) samples. Falls back to a plain difference if the normal
/// equations are degenerate.
pub fn weighted_velocity(samples: &Vec<Sample>, weights: &RecencyWeights) -> (v: (Single, Single))
    requires
        1 <= samples@.len() <= MAX_SAMPLES,
        weights.wf(),
    ensures
        v == fitted_velocity(samples@, weights.row(samples@.len() as int)),
{
    let n = samples.len();
    let t0 = samples[0].time;
    let z = Double::from_bits(0);
    let mut s = Sums { w: z, wt: z, wt2: z, wx: z, wy: z, wtx: z, wty: z };
    let mut i: usize = 0;
    while i < n
        invariant
            i <= n <= MAX_SAMPLES,
            n == samples@.len(),
            t0 == samples@[0].time,
            weights.wf(),
            s == weighted_sums(samples@, weights.row(n as int), i as nat),
        decreases n - i,
    {
        let sample = samples[i];
        let t = seconds(since(sample.time, t0));
        let w = weights.weight(n, i);
        let x = sample.x.to_double();
        let y = sample.y.to_double();
        s = Sums {
            w: s.w.add(w),
            wt: s.wt.add(w.mul(t)),
            wt2: s.wt2.add(w.mul(t).mul(t)),
            wx: s.wx.add(w.mul(x)),
            wy: s.wy.add(w.mul(y)),
            wtx: s.wtx.add(w.mul(t).mul(x)),
            wty: s.wty.add(w.mul(t).mul(y)),
        };
        i = i + 1;
    }
    let denom = s.w.mul(s.wt2).sub(s.wt.mul(s.wt));
    if denom.abs().lt(Double::from_fraction(1, 1_000_000_000_000)) {
        return plain_velocity(samples[0], samples[n - 1]);
    }
    (
        s.w.mul(s.wtx).sub(s.wt.mul(s.wx)).div(denom).to_single(),
        s.w.mul(s.wty).sub(s.wt.mul(s.wy)).div(denom).to_single(),
    )
}

pub fn clamp_velocity(v: Single) -> (r: Single)
    ensures
        r == capped(v),
{
    let max = Single::from_integer(MAX_VELOCITY);
    v.clamp(max.neg(), max)
}

/// One decelerating step's displacement (logical px), applied by the caller as a
/// drag-continuation move.
#[derive(Clone, Copy, Debug)]
pub struct MomentumStep {
    /// Displacement along X since the previous step.
    pub dx: Single,
    /// Displacement along Y since the previous step.
    pub dy: Single,
}

impl PartialEq for MomentumStep {
    fn eq(&self, other: &Self) -> (r: bool) {
        self.dx == other.dx && self.dy == other.dy
    }
}

impl PartialEqSpecImpl for MomentumStep {
    open spec fn obeys_eq_spec() -> bool {
        true
    }

    open spec fn eq_spec(&self, other: &Self) -> bool {
        self.dx.equals(other.dx) && self.dy.equals(other.dy)
    }
}

/// What one frame does to a velocity: with `r` the velocity decay per millisecond,
/// `factor` is `r` to the power of the frame's milliseconds and `log_rate` the
/// natural logarithm of `r`.
#[derive(Clone, Copy, Debug, PartialEq)]
pub struct Decay {
    pub factor: Single,
    pub log_rate: Single,
}

impl Decay {
    /// The velocity decay per millisecond. At sixty frames per second it loses about
    /// three percent per frame, so that a fling of 2000 px/s glides for two seconds.
    pub fn rate() -> (r: Single)
        ensures
            r == Single::fraction(998, 1000),
    {
        Single::from_fraction(998, 1000)
    }
}

/// Produces decelerating displacements from a release velocity.
///
/// Seed with [`fling`](Self::fling), then call [`step`](Self::step) once per frame:
/// it returns a displacement while gliding and `None` once the velocity falls below
/// [`MIN_VELOCITY`].
#[derive(Clone, Copy, Debug, PartialEq)]
pub struct MomentumScroller {
    pub vx: Single,
    pub vy: Single,
    pub active: bool,
    pub last_time: u64,
}

/// The length of a velocity vector.
pub open spec fn speed_of(vx: Single, vy: Single) -> Single {
    vx.times(vx).plus(vy.times(vy)).root()
}

/// Whether a velocity is too slow to glide.
pub open spec fn is_settled(vx: Single, vy: Single) -> bool {
    speed_of(vx, vy).less(Single::nearest(MIN_VELOCITY as real))
}

fn settled(vx: Single, vy: Single) -> (r: bool)
    ensures
        r == is_settled(vx, vy),
{
    vx.mul(vx).add(vy.mul(vy)).sqrt().lt(Single::from_integer(MIN_VELOCITY))
}

impl MomentumScroller {
    pub open spec fn idle() -> MomentumScroller {
        MomentumScroller { vx: Single::zero(), vy: Single::zero(), active: false, last_time: 0 }
    }

    /// The scroller after a release: gliding with that velocity, or idle where it is
    /// too slow.
    pub open spec fn flung(self, vx: Single, vy: Single, now: u64) -> MomentumScroller {
        if is_settled(vx, vy) {
            MomentumScroller { active: false, ..self }
        } else {
            MomentumScroller { vx, vy, active: true, last_time: now }
        }
    }

    /// The scroller brought to a stop.
    pub open spec fn cancelled(self) -> MomentumScroller {
        MomentumScroller { vx: Single::zero(), vy: Single::zero(), active: false, ..self }
    }

    /// The seconds a frame at `now` covers, capped.
    pub open spec fn interval(self, now: u64) -> Single {
        seconds_of(elapsed(now, self.last_time)).narrowed().smaller(
            Single::fraction(MAX_STEP_MILLIS as nat, 1000),
        )
    }

    /// The milliseconds a frame at `now` covers, capped.
    pub open spec fn millis(self, now: u64) -> Single {
        self.interval(now).times(Single::nearest(1000real))
    }

    /// Whether a frame at `now` comes too soon after the last one to move anything.
    pub open spec fn is_too_soon(self, now: u64) -> bool {
        self.interval(now).less(Single::fraction(1, 1_000_000))
    }

    /// The displacement per unit of velocity over a frame: the integral
    /// `(factor - 1) / ln r` of the decaying velocity, in seconds.
    pub open spec fn displacement_factor(self, now: u64, decay: Decay) -> Single {
        if Single::fraction(1, 1_000_000_000).less(decay.log_rate.magnitude()) {
            decay.factor.minus(Single::nearest(1real)).over(
                decay.log_rate.times(Single::nearest(1000real)),
            )
        } else {
            self.interval(now)
        }
    }

    /// The displacement of a frame.
    pub open spec fn displacement(self, now: u64, decay: Decay) -> MomentumStep {
        let d = self.displacement_factor(now, decay);
        MomentumStep { dx: self.vx.times(d), dy: self.vy.times(d) }
    }

    /// The scroller after a frame.
    pub open spec fn stepped(self, now: u64, decay: Decay) -> MomentumScroller {
        if !self.active {
            self
        } else if self.is_too_soon(now) {
            MomentumScroller { last_time: now, ..self }
        } else {
            let vx = self.vx.times(decay.factor);
            let vy = self.vy.times(decay.factor);
            MomentumScroller { vx, vy, active: !is_settled(vx, vy), last_time: now }
        }
    }

    /// What a frame moves: nothing when idle, or when all that is left is a sub-pixel
    /// tail; not at all when it comes too soon.
    pub open spec fn moved(self, now: u64, decay: Decay) -> Option<MomentumStep> {
        let step = self.displacement(now, decay);
        let tenth = Single::fraction(1, 10);
        if !self.active {
            None
        } else if self.is_too_soon(now) {
            Some(MomentumStep { dx: Single::zero(), dy: Single::zero() })
        } else if !self.stepped(now, decay).active && step.dx.magnitude().less(tenth)
            && step.dy.magnitude().less(tenth) {
            None
        } else {
            Some(step)
        }
    }
}

impl Default for MomentumScroller {
    fn default() -> (s: Self)
        ensures
            s == MomentumScroller::idle(),
    {
        MomentumScroller {
            vx: Single::from_bits(0),
            vy: Single::from_bits(0),
            active: false,
            last_time: 0,
        }
    }
}

impl MomentumScroller {
    /// An idle scroller.
    pub fn new() -> (s: Self)
        ensures
            s == MomentumScroller::idle(),
    {
        Self::default()
    }

    /// Starts a fling from a release velocity (logical px/s). A speed below
    /// [`MIN_VELOCITY`] leaves the scroller idle.
    pub fn fling(&mut self, vx: Single, vy: Single, now: u64)
        ensures
            *final(self) == old(self).flung(vx, vy, now),
    {
        if settled(vx, vy) {
            self.active = false;
            return;
        }
        self.vx = vx;
        self.vy = vy;
        self.active = true;
        self.last_time = now;
    }

    /// The milliseconds a frame at `now` covers: the power that [`Decay::factor`]
    /// raises the decay rate to.
    pub fn frame_millis(&self, now: u64) -> (r: Single)
        ensures
            r == self.millis(now),
    {
        self.frame_seconds(now).mul(Single::from_integer(1000))
    }

    fn frame_seconds(&self, now: u64) -> (r: Single)
        ensures
            r == self.interval(now),
    {
        seconds(since(now, self.last_time)).to_single().min(
            Single::from_fraction(MAX_STEP_MILLIS, 1000),
        )
    }

    /// Advances one frame, returning the displacement to apply, or `None` when the
    /// fling has settled. A frame that comes too soon after the last one is applied as
    /// no displacement, and the fling goes on.
    ///
    /// The displacement is the integral of the decaying velocity over the frame, not
    /// velocity times interval, which would overshoot in the first frames.
    pub fn step(&mut self, now: u64, decay: Decay) -> (r: Option<MomentumStep>)
        ensures
            *final(self) == old(self).stepped(now, decay),
            r == old(self).moved(now, decay),
            r is None ==> !final(self).active,
    {
        if !self.active {
            return None;
        }
        let dt = self.frame_seconds(now);
        self.last_time = now;
        if dt.lt(Single::from_fraction(1, 1_000_000)) {
            return Some(MomentumStep { dx: Single::from_bits(0), dy: Single::from_bits(0) });
        }
        let factor = if Single::from_fraction(1, 1_000_000_000).lt(decay.log_rate.abs()) {
            decay.factor.sub(Single::from_integer(1)).div(
                decay.log_rate.mul(Single::from_integer(1000)),
            )
        } else {
            dt
        };
        let dx = self.vx.mul(factor);
        let dy = self.vy.mul(factor);
        self.vx = self.vx.mul(decay.factor);
        self.vy = self.vy.mul(decay.factor);
        if settled(self.vx, self.vy) {
            self.active = false;
            // Drop a final sub-pixel tail so the caller's finalize isn't a jump.
            let tenth = Single::from_fraction(1, 10);
            if dx.abs().lt(tenth) && dy.abs().lt(tenth) {
                return None;
            }
        }
        Some(MomentumStep { dx, dy })
    }

    /// Stops any active fling (e.g. a new touch landed).
    pub fn cancel(&mut self)
        ensures
            *final(self) == old(self).cancelled(),
    {
        self.active = false;
        self.vx = Single::from_bits(0);
        self.vy = Single::from_bits(0);
    }

    /// Whether a fling is currently gliding.
    pub fn is_active(&self) -> (r: bool)
        ensures
            r == self.active,
    {
        self.active
    }
}

} // verus!
