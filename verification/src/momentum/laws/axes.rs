//! The two coordinates are treated alike.

use vstd::prelude::*;
use crate::ieee::double::Double;
use crate::ieee::single::Single;
use crate::momentum::{RecencyWeights, Ring, Sample};

verus! {

/// A sample with its two coordinates swapped.
pub open spec fn turned(s: Sample) -> Sample {
    Sample { x: s.y, y: s.x, time: s.time }
}

pub open spec fn all_turned(samples: Seq<Sample>) -> Seq<Sample> {
    Seq::new(samples.len(), |i: int| turned(samples[i]))
}

/// A ring whose samples have their coordinates swapped.
pub open spec fn turned_ring(ring: Ring) -> Ring {
    Ring {
        samples: Seq::new(
            ring.samples.len(),
            |i: int|
                match ring.samples[i] {
                    Some(s) => Some(turned(s)),
                    None => None,
                },
        ),
        next: ring.next,
    }
}

/// Neither coordinate is privileged: swapping the two in every sample swaps the two
/// components of the velocity.
pub proof fn law_swapped_samples_swap_the_velocity(ring: Ring, now: u64, weights: RecencyWeights)
    ensures
        ({
            let v = ring.velocity(now, weights);
            turned_ring(ring).velocity(now, weights) == (v.1, v.0)
        }),
{
    let slots = crate::momentum::recent_samples(ring.samples, now);
    let other = turned_ring(ring);
    lemma_recent_turned(ring.samples, other.samples, now);
    lemma_by_time_turned(slots);
    let a = ring.recent(now);
    let b = other.recent(now);
    assert(b == all_turned(a));
    if a.len() >= 2 {
        assert(b[0] == turned(a[0]));
        assert(b.last() == turned(a.last()));
        lemma_sums_turned(a, weights.row(a.len() as int), a.len());
    }
}

proof fn lemma_recent_turned(a: Seq<Option<Sample>>, b: Seq<Option<Sample>>, now: u64)
    requires
        a.len() == b.len(),
        forall|i: int|
            0 <= i < a.len() ==> #[trigger] b[i] == (match a[i] {
                Some(s) => Some(turned(s)),
                None => None,
            }),
    ensures
        crate::momentum::recent_samples(b, now) == all_turned(
            crate::momentum::recent_samples(a, now),
        ),
    decreases a.len(),
{
    if a.len() > 0 {
        let c = a.drop_last();
        let d = b.drop_last();
        assert forall|i: int| 0 <= i < c.len() implies #[trigger] d[i] == (match c[i] {
            Some(s) => Some(turned(s)),
            None => None,
        }) by {
            assert(b[i] == d[i]);
        }
        lemma_recent_turned(c, d, now);
        assert(b[b.len() - 1] == b.last());
        let r = crate::momentum::recent_samples(c, now);
        if crate::momentum::is_recent(a.last(), now) {
            assert(all_turned(r).push(b.last()->0) =~= all_turned(r.push(a.last()->0)));
        }
    } else {
        assert(crate::momentum::recent_samples(b, now) =~= all_turned(
            crate::momentum::recent_samples(a, now),
        ));
    }
}

proof fn lemma_insert_turned(sorted: Seq<Sample>, sample: Sample)
    ensures
        crate::momentum::insert_by_time(all_turned(sorted), turned(sample)) == all_turned(
            crate::momentum::insert_by_time(sorted, sample),
        ),
    decreases sorted.len(),
{
    let other = all_turned(sorted);
    if sorted.len() == 0 || sorted.last().time <= sample.time {
        assert(other.push(turned(sample)) =~= all_turned(sorted.push(sample)));
    } else {
        let rest = sorted.drop_last();
        lemma_insert_turned(rest, sample);
        assert(other.drop_last() =~= all_turned(rest));
        let r = crate::momentum::insert_by_time(rest, sample);
        assert(all_turned(r).push(turned(sorted.last())) =~= all_turned(r.push(sorted.last())));
    }
}

proof fn lemma_by_time_turned(samples: Seq<Sample>)
    ensures
        crate::momentum::by_time(all_turned(samples)) == all_turned(
            crate::momentum::by_time(samples),
        ),
    decreases samples.len(),
{
    let other = all_turned(samples);
    if samples.len() > 0 {
        let rest = samples.drop_last();
        lemma_by_time_turned(rest);
        assert(other.drop_last() =~= all_turned(rest));
        assert(other.last() == turned(samples.last()));
        lemma_insert_turned(crate::momentum::by_time(rest), samples.last());
    } else {
        assert(other =~= samples);
    }
}

proof fn lemma_sums_turned(samples: Seq<Sample>, weights: Seq<Double>, k: nat)
    requires
        k <= samples.len(),
    ensures
        ({
            let a = crate::momentum::weighted_sums(samples, weights, k);
            let b = crate::momentum::weighted_sums(all_turned(samples), weights, k);
            &&& a.w == b.w && a.wt == b.wt && a.wt2 == b.wt2
            &&& a.wx == b.wy && a.wy == b.wx
            &&& a.wtx == b.wty && a.wty == b.wtx
        }),
    decreases k,
{
    if k > 0 {
        lemma_sums_turned(samples, weights, (k - 1) as nat);
        assert(all_turned(samples)[k - 1] == turned(samples[k - 1]));
        assert(all_turned(samples)[0] == turned(samples[0]));
    }
}

} // verus!
