//! Which of the recorded samples a velocity depends on.

use vstd::prelude::*;
use crate::momentum::{RecencyWeights, Ring, Sample, MAX_SAMPLES};

verus! {

/// Samples outside the window do not count, nor does where in the ring the others are:
/// two rings that hold the same recent samples, those of each instant in the same order,
/// report the same velocity.
pub proof fn law_stale_samples_do_not_count(a: Ring, b: Ring, now: u64, weights: RecencyWeights)
    requires
        forall|time: u64| #[trigger]
            super::taken_at(crate::momentum::recent_samples(a.samples, now), time)
                == super::taken_at(crate::momentum::recent_samples(b.samples, now), time),
    ensures
        a.velocity(now, weights) == b.velocity(now, weights),
{
    lemma_same_recent(a, b, now);
}

/// Rings that hold the same recent samples fit the same ones.
proof fn lemma_same_recent(a: Ring, b: Ring, now: u64)
    requires
        forall|time: u64| #[trigger]
            super::taken_at(crate::momentum::recent_samples(a.samples, now), time)
                == super::taken_at(crate::momentum::recent_samples(b.samples, now), time),
    ensures
        a.recent(now) == b.recent(now),
{
    let x = crate::momentum::recent_samples(a.samples, now);
    let y = crate::momentum::recent_samples(b.samples, now);
    super::law_by_time_sorts(x);
    super::law_by_time_sorts(y);
    let p = crate::momentum::by_time(x);
    let q = crate::momentum::by_time(y);
    assert forall|time: u64| #[trigger] super::taken_at(p, time) == super::taken_at(q, time) by {
        assert(super::taken_at(x, time) == super::taken_at(y, time));
    }
    lemma_sorted_unique(p, q);
}

/// A sequence in order of time is given by what was taken at each instant.
proof fn lemma_sorted_unique(p: Seq<Sample>, q: Seq<Sample>)
    requires
        forall|i: int, j: int| 0 <= i <= j < p.len() ==> p[i].time <= p[j].time,
        forall|i: int, j: int| 0 <= i <= j < q.len() ==> q[i].time <= q[j].time,
        forall|time: u64| #[trigger] super::taken_at(p, time) == super::taken_at(q, time),
    ensures
        p == q,
    decreases p.len(),
{
    if p.len() == 0 {
        if q.len() > 0 {
            let t = q.last().time;
            assert(super::taken_at(p, t) == super::taken_at(q, t));
            assert(super::taken_at(q, t).len() > 0);
        }
        assert(p == q);
    } else {
        let t = p.last().time;
        assert(super::taken_at(p, t) == super::taken_at(q, t));
        assert(super::taken_at(p, t).last() == p.last());
        lemma_taken_from(q, t);
        assert(super::taken_at(q, t).len() > 0);
        assert(q.len() > 0);
        let u = q.last().time;
        assert(super::taken_at(p, u) == super::taken_at(q, u));
        lemma_taken_from(p, u);
        assert(super::taken_at(q, u).len() > 0);
        assert(t == u) by {
            let i = choose|i: int| 0 <= i < q.len() && #[trigger] q[i].time == t;
            let j = choose|j: int| 0 <= j < p.len() && #[trigger] p[j].time == u;
            assert(q[i].time <= q[q.len() - 1].time);
            assert(p[j].time <= p[p.len() - 1].time);
        }
        let p1 = p.drop_last();
        let q1 = q.drop_last();
        assert forall|time: u64| #[trigger]
            super::taken_at(p1, time) == super::taken_at(q1, time) by {
            assert(super::taken_at(p, time) == super::taken_at(q, time));
            if time == t {
                assert(super::taken_at(p, t).drop_last() == super::taken_at(p1, t));
                assert(super::taken_at(q, t).drop_last() == super::taken_at(q1, t));
            }
        }
        lemma_sorted_unique(p1, q1);
        assert(p == p1.push(p.last()));
        assert(q == q1.push(q.last()));
    }
}

/// Where something was taken at an instant, a sample was.
proof fn lemma_taken_from(samples: Seq<Sample>, time: u64)
    ensures
        super::taken_at(samples, time).len() > 0 ==> exists|i: int|
            0 <= i < samples.len() && #[trigger] samples[i].time == time,
        forall|k: int|
            0 <= k < super::taken_at(samples, time).len() ==> (#[trigger] super::taken_at(
                samples,
                time,
            )[k]).time == time && samples.contains(super::taken_at(samples, time)[k]),
    decreases samples.len(),
{
    if samples.len() > 0 {
        let rest = samples.drop_last();
        lemma_taken_from(rest, time);
        let taken = super::taken_at(samples, time);
        let before = super::taken_at(rest, time);
        assert forall|k: int| 0 <= k < taken.len() implies (#[trigger] taken[k]).time == time
            && samples.contains(taken[k]) by {
            if k < before.len() {
                assert(before[k].time == time && rest.contains(before[k]));
                let i = choose|i: int| 0 <= i < rest.len() && rest[i] == before[k];
                assert(samples[i] == taken[k]);
            } else {
                assert(samples[samples.len() - 1] == taken[k]);
            }
        }
        if taken.len() > 0 {
            assert(samples.contains(taken[0]) && taken[0].time == time);
            let i = choose|i: int| 0 <= i < samples.len() && samples[i] == taken[0];
            assert(samples[i].time == time);
        }
    }
}

/// The ring after some samples were recorded, one after the other.
pub open spec fn recorded(history: Seq<Sample>) -> Ring
    decreases history.len(),
{
    if history.len() == 0 {
        Ring::empty()
    } else {
        recorded(history.drop_last()).recorded(history.last())
    }
}

/// What a slot holds after a history: the last sample whose turn it was.
pub open spec fn slot_after(history: Seq<Sample>, i: int) -> Option<Sample> {
    let n = history.len() as int;
    let p = n % 16;
    if i < p {
        Some(history[n - p + i])
    } else if n - p - 16 + i >= 0 {
        Some(history[n - p - 16 + i])
    } else {
        None
    }
}

proof fn lemma_slots(history: Seq<Sample>)
    ensures
        recorded(history).wf(),
        recorded(history).next == history.len() % 16,
        forall|i: int|
            0 <= i < 16 ==> #[trigger] recorded(history).samples[i] == slot_after(history, i),
    decreases history.len(),
{
    if history.len() > 0 {
        let rest = history.drop_last();
        lemma_slots(rest);
        let ring = recorded(rest);
        assert forall|i: int| 0 <= i < 16 implies #[trigger] recorded(history).samples[i]
            == slot_after(history, i) by {
            assert(ring.samples[i] == slot_after(rest, i));
        }
    }
}

proof fn lemma_recent_concat(a: Seq<Option<Sample>>, b: Seq<Option<Sample>>, now: u64)
    ensures
        crate::momentum::recent_samples(a + b, now) == crate::momentum::recent_samples(a, now)
            + crate::momentum::recent_samples(b, now),
    decreases b.len(),
{
    if b.len() == 0 {
        assert(a + b == a);
    } else {
        assert((a + b).drop_last() == a + b.drop_last());
        lemma_recent_concat(a, b.drop_last(), now);
    }
}

proof fn lemma_taken_concat(a: Seq<Sample>, b: Seq<Sample>, time: u64)
    ensures
        super::taken_at(a + b, time) == super::taken_at(a, time) + super::taken_at(b, time),
    decreases b.len(),
{
    if b.len() == 0 {
        assert(a + b == a);
    } else {
        assert((a + b).drop_last() == a + b.drop_last());
        lemma_taken_concat(a, b.drop_last(), time);
    }
}

proof fn lemma_recent_from(slots: Seq<Option<Sample>>, now: u64)
    ensures
        forall|k: int|
            0 <= k < crate::momentum::recent_samples(slots, now).len() ==> slots.contains(
                Some(#[trigger] crate::momentum::recent_samples(slots, now)[k]),
            ),
    decreases slots.len(),
{
    if slots.len() > 0 {
        let rest = slots.drop_last();
        lemma_recent_from(rest, now);
        let recent = crate::momentum::recent_samples(slots, now);
        let before = crate::momentum::recent_samples(rest, now);
        assert forall|k: int| 0 <= k < recent.len() implies slots.contains(
            Some(#[trigger] recent[k]),
        ) by {
            if k < before.len() {
                assert(rest.contains(Some(before[k])));
                let i = choose|i: int| 0 <= i < rest.len() && rest[i] == Some(before[k]);
                assert(slots[i] == Some(recent[k]));
            } else {
                assert(slots[slots.len() - 1] == Some(recent[k]));
            }
        }
    }
}

/// The last samples of a history, as many as a ring holds.
pub open spec fn last_sixteen(history: Seq<Sample>) -> Seq<Sample> {
    history.skip(history.len() - MAX_SAMPLES)
}

/// How many of those the ring holds behind the newer ones: it wraps around there.
pub open spec fn seam(history: Seq<Sample>) -> int {
    16 - history.len() % 16
}

/// Only the last sixteen samples count: a ring of more records reports what these alone
/// give. Where two different samples taken at the same instant lie on either side of the
/// seam, their order changes and with it the fit, so such histories are left out.
pub proof fn law_the_last_sixteen_count(history: Seq<Sample>, now: u64, weights: RecencyWeights)
    requires
        history.len() > 16,
        forall|i: int, j: int|
            #![trigger last_sixteen(history)[i], last_sixteen(history)[j]]
            0 <= i < seam(history) <= j < 16 && last_sixteen(history)[i].time == last_sixteen(
                history,
            )[j].time ==> last_sixteen(history)[i] == last_sixteen(history)[j],
    ensures
        recorded(history).velocity(now, weights) == recorded(last_sixteen(history)).velocity(
            now,
            weights,
        ),
{
    lemma_last_sixteen_recent(history, now);
}

proof fn lemma_last_sixteen_recent(history: Seq<Sample>, now: u64)
    requires
        history.len() > 16,
        forall|i: int, j: int|
            #![trigger last_sixteen(history)[i], last_sixteen(history)[j]]
            0 <= i < seam(history) <= j < 16 && last_sixteen(history)[i].time == last_sixteen(
                history,
            )[j].time ==> last_sixteen(history)[i] == last_sixteen(history)[j],
    ensures
        recorded(history).recent(now) == recorded(last_sixteen(history)).recent(now),
{
    let last = last_sixteen(history);
    let k = seam(history);
    let ring = recorded(history);
    let fresh = recorded(last);
    lemma_slots(history);
    lemma_slots(last);
    let older = Seq::new(k as nat, |i: int| Some(last[i]));
    let newer = Seq::new((16 - k) as nat, |i: int| Some(last[k + i]));
    assert(fresh.samples == older + newer) by {
        assert forall|i: int| 0 <= i < 16 implies #[trigger] fresh.samples[i] == (older
            + newer)[i] by {
            assert(fresh.samples[i] == slot_after(last, i));
        }
    }
    assert(ring.samples == newer + older) by {
        assert forall|i: int| 0 <= i < 16 implies #[trigger] ring.samples[i] == (newer
            + older)[i] by {
            assert(ring.samples[i] == slot_after(history, i));
        }
    }
    let x = crate::momentum::recent_samples(older, now);
    let y = crate::momentum::recent_samples(newer, now);
    lemma_recent_concat(older, newer, now);
    lemma_recent_concat(newer, older, now);
    lemma_recent_from(older, now);
    lemma_recent_from(newer, now);
    assert forall|time: u64| #[trigger]
        super::taken_at(crate::momentum::recent_samples(ring.samples, now), time)
            == super::taken_at(crate::momentum::recent_samples(fresh.samples, now), time) by {
        lemma_taken_concat(x, y, time);
        lemma_taken_concat(y, x, time);
        lemma_taken_from(x, time);
        lemma_taken_from(y, time);
        let a = super::taken_at(x, time);
        let b = super::taken_at(y, time);
        assert forall|i: int, j: int|
            0 <= i < a.len() && 0 <= j < b.len() implies #[trigger] a[i] == #[trigger] b[j] by {
            assert(x.contains(a[i]));
            assert(y.contains(b[j]));
            let xi = choose|m: int| 0 <= m < x.len() && x[m] == a[i];
            let yj = choose|m: int| 0 <= m < y.len() && y[m] == b[j];
            assert(older.contains(Some(x[xi])));
            assert(newer.contains(Some(y[yj])));
            let p = choose|m: int| 0 <= m < older.len() && older[m] == Some(x[xi]);
            let q = choose|m: int| 0 <= m < newer.len() && newer[m] == Some(y[yj]);
            assert(last[p] == a[i]);
            assert(last[k + q] == b[j]);
        }
        assert(a + b == b + a) by {
            if a.len() > 0 && b.len() > 0 {
                assert forall|i: int| 0 <= i < a.len() + b.len() implies #[trigger] (a + b)[i]
                    == (b + a)[i] by {
                    assert(a[0] == b[0]);
                    if i < a.len() {
                        assert(a[i] == b[0]);
                    } else {
                        assert(a[0] == b[i - a.len()]);
                    }
                    if i < b.len() {
                        assert(a[0] == b[i]);
                    } else {
                        assert(a[i - b.len()] == b[0]);
                    }
                }
            }
        }
    }
    lemma_same_recent(ring, fresh, now);
}

/// The recent samples of slots that hold a history, which is in order of time.
proof fn lemma_recent_of_slots(
    slots: Seq<Option<Sample>>,
    history: Seq<Sample>,
    k: int,
    now: u64,
    m: int,
)
    requires
        0 <= m <= slots.len(),
        history.len() <= slots.len(),
        0 <= k <= history.len(),
        forall|i: int|
            0 <= i < slots.len() ==> #[trigger] slots[i] == (if i < history.len() {
                Some(history[i])
            } else {
                None
            }),
        forall|i: int|
            0 <= i < history.len() ==> (i >= k <==> now <= #[trigger] history[i].time
                + 100_000_000),
    ensures
        crate::momentum::recent_samples(slots.take(m), now) == (if m <= k {
            Seq::empty()
        } else if m <= history.len() {
            history.subrange(k, m)
        } else {
            history.subrange(k, history.len() as int)
        }),
    decreases m,
{
    if m > 0 {
        lemma_recent_of_slots(slots, history, k, now, m - 1);
        assert(slots.take(m).drop_last() =~= slots.take(m - 1));
        assert(slots.take(m).last() == slots[m - 1]);
        if m <= history.len() {
            assert(slots[m - 1] == Some(history[m - 1]));
            assert((m - 1 >= k) <==> now <= history[m - 1].time + 100_000_000);
            if m > k {
                let before = if m - 1 <= k {
                    Seq::empty()
                } else {
                    history.subrange(k, m - 1)
                };
                assert(before.push(history[m - 1]) =~= history.subrange(k, m));
            }
        }
    } else {
        assert(slots.take(0) =~= Seq::empty());
    }
}

/// What is in order of time stays as it is.
proof fn lemma_by_time_of_sorted(samples: Seq<Sample>)
    requires
        forall|i: int, j: int| 0 <= i <= j < samples.len() ==> samples[i].time <= samples[j].time,
    ensures
        crate::momentum::by_time(samples) == samples,
    decreases samples.len(),
{
    if samples.len() > 0 {
        let rest = samples.drop_last();
        lemma_by_time_of_sorted(rest);
        if rest.len() > 0 {
            assert(samples[rest.len() - 1].time <= samples[samples.len() - 1].time);
        }
        assert(rest.push(samples.last()) =~= samples);
    }
}

/// The recent samples are gathered slot by slot: a slot gives its sample, whatever the other
/// slots hold, exactly when that is no older than a hundred milliseconds; one from the
/// future is not old.
pub proof fn law_recent_samples_are_gathered_slot_by_slot(
    a: Seq<Option<Sample>>,
    b: Seq<Option<Sample>>,
    sample: Sample,
    now: u64,
)
    ensures
        crate::momentum::recent_samples(a + b, now) == crate::momentum::recent_samples(a, now)
            + crate::momentum::recent_samples(b, now),
        crate::momentum::recent_samples(seq![None], now).len() == 0,
        now <= sample.time + 100_000_000 ==> crate::momentum::recent_samples(
            seq![Some(sample)],
            now,
        ) == seq![sample],
        now > sample.time + 100_000_000 ==> crate::momentum::recent_samples(
            seq![Some(sample)],
            now,
        ).len() == 0,
{
    lemma_recent_concat(a, b, now);
    reveal_with_fuel(crate::momentum::recent_samples, 2);
    assert(seq![Some(sample)].drop_last() =~= Seq::empty());
    assert(seq![None::<Sample>].drop_last() =~= Seq::empty());
}

/// What feeds the fit is the end of the drag: of samples recorded one after the other, in
/// order of time, those of the last hundred milliseconds, the last sixteen of them if they
/// are more, in the order in which they were recorded. Once the ring wraps around no two of
/// them may be of the same instant.
pub proof fn law_recent_is_the_end_of_the_drag(history: Seq<Sample>, k: int, now: u64)
    requires
        forall|i: int, j: int|
            0 <= i < j < history.len() ==> #[trigger] history[i].time <= #[trigger] history[j].time
                && (history.len() > 16 ==> history[i].time < history[j].time),
        0 <= k <= history.len() <= k + 16,
        k < history.len() ==> now <= history[k].time + 100_000_000,
        k == 0 || history.len() == k + 16 || now > history[k - 1].time + 100_000_000,
    ensures
        recorded(history).recent(now) == history.skip(k),
    decreases history.len(),
{
    if history.len() > 16 {
        let last = last_sixteen(history);
        let d = history.len() - 16;
        lemma_last_sixteen_recent(history, now);
        assert forall|i: int, j: int| 0 <= i < j < last.len() implies #[trigger] last[i].time
            < #[trigger] last[j].time by {
            assert(last[i] == history[d + i] && last[j] == history[d + j]);
        }
        law_recent_is_the_end_of_the_drag(last, k - d, now);
        assert(last.skip(k - d) =~= history.skip(k));
    } else {
        let ring = recorded(history);
        lemma_slots(history);
        assert forall|i: int| 0 <= i < ring.samples.len() implies #[trigger] ring.samples[i] == (
        if i < history.len() {
            Some(history[i])
        } else {
            None
        }) by {
            assert(ring.samples[i] == slot_after(history, i));
        }
        assert forall|i: int| 0 <= i < history.len() implies (i >= k <==> now
            <= #[trigger] history[i].time + 100_000_000) by {
            if i > k {
                assert(history[k].time <= history[i].time);
            }
            if i < k - 1 {
                assert(history[i].time <= history[k - 1].time);
            }
            if k > 0 && history.len() == k + 16 {
                assert(false);
            }
        }
        lemma_recent_of_slots(ring.samples, history, k, now, 16);
        assert(ring.samples.take(16) =~= ring.samples);
        assert(history.subrange(k, history.len() as int) =~= history.skip(k));
        if history.len() == k {
            assert(history.skip(k) =~= Seq::empty());
        }
        let q = history.skip(k);
        assert forall|i: int, j: int| 0 <= i <= j < q.len() implies q[i].time <= q[j].time by {
            assert(q[i] == history[k + i] && q[j] == history[k + j]);
        }
        lemma_by_time_of_sorted(q);
    }
}

} // verus!
