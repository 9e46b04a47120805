//! Where work is queued.

use vstd::prelude::*;

verus! {

/// How urgent a piece of work is.
#[derive(Clone, Copy, Debug, PartialEq, Eq, Structural)]
pub enum Priority {
    RealtimeAudio,
    High,
    Medium,
    Low,
}

/// The priority of a system queue.
#[derive(Clone, Copy, Debug, PartialEq, Eq, Structural)]
pub enum QueuePriority {
    High,
    Default,
    Low,
}

/// A queue, and when the work on it may run.
#[derive(Clone, Copy, Debug, PartialEq, Eq, Structural)]
pub enum Target {
    /// A global queue, as soon as it comes up.
    Global(QueuePriority),
    /// The queue of the main thread.
    Main,
    /// A global queue, after that many nanoseconds.
    After(QueuePriority, i64),
}

/// Unit dispatcher; all state lives in the system's queues.
#[derive(Clone, Copy, Debug, PartialEq, Eq, Structural)]
pub struct IosDispatcher;

/// The signed 64-bit integer that is congruent to `n`.
pub open spec fn wrapped(n: nat) -> int {
    let low = n % 0x1_0000_0000_0000_0000;
    if low < 0x8000_0000_0000_0000 {
        low as int
    } else {
        low - 0x1_0000_0000_0000_0000
    }
}

/// The queue for background work of a priority.
pub open spec fn queue_of(priority: Priority) -> QueuePriority {
    match priority {
        Priority::High => QueuePriority::High,
        Priority::Medium => QueuePriority::Default,
        _ => QueuePriority::Low,
    }
}

impl IosDispatcher {
    pub fn new() -> (d: Self)
        ensures
            d == IosDispatcher,
    {
        IosDispatcher
    }

    /// The queue for background work. Realtime audio has a thread of its own instead.
    pub fn dispatch(&self, priority: Priority) -> (target: Target)
        requires
            priority != Priority::RealtimeAudio,
        ensures
            target == Target::Global(queue_of(priority)),
    {
        Target::Global(
            match priority {
                Priority::High => QueuePriority::High,
                Priority::Medium => QueuePriority::Default,
                _ => QueuePriority::Low,
            },
        )
    }

    /// The queue for work on the main thread, whatever its priority.
    pub fn dispatch_on_main_thread(&self, _priority: Priority) -> (target: Target)
        ensures
            target == Target::Main,
    {
        Target::Main
    }

    /// The queue for work after a delay, given in nanoseconds; the queue counts them in
    /// 64 bits, and longer delays wrap around.
    pub fn dispatch_after(&self, nanos: u128) -> (target: Target)
        ensures
            target matches Target::After(priority, delay) && priority == QueuePriority::High
                && delay == wrapped(nanos as nat),
    {
        let low: u64 = (nanos % 0x1_0000_0000_0000_0000) as u64;
        let delay: i64 = if low < 0x8000_0000_0000_0000 {
            low as i64
        } else {
            (low - 0x8000_0000_0000_0000) as i64 - 0x7fff_ffff_ffff_ffff - 1
        };
        Target::After(QueuePriority::High, delay)
    }
}

/// A delay that fits in the queue's 63 bits is kept as it is.
pub proof fn law_delays_are_exact(nanos: nat)
    requires
        nanos < 0x8000_0000_0000_0000,
    ensures
        wrapped(nanos) == nanos,
{
}

/// How urgent background work is.
pub open spec fn urgency(priority: Priority) -> int {
    match priority {
        Priority::RealtimeAudio => 3,
        Priority::High => 2,
        Priority::Medium => 1,
        Priority::Low => 0,
    }
}

/// How soon a system queue comes up.
pub open spec fn rank(queue: QueuePriority) -> int {
    match queue {
        QueuePriority::High => 2,
        QueuePriority::Default => 1,
        QueuePriority::Low => 0,
    }
}

/// The more urgent of two pieces of background work is on the higher queue.
pub proof fn law_urgent_work_comes_first(a: Priority, b: Priority)
    requires
        a != Priority::RealtimeAudio,
        b != Priority::RealtimeAudio,
    ensures
        urgency(a) > urgency(b) <==> rank(queue_of(a)) > rank(queue_of(b)),
{
}

/// Any other delay wraps around: what the queue counts fits in 64 bits, and differs from the
/// delay by a multiple of `2^64`.
pub proof fn law_delays_wrap_around(nanos: nat)
    ensures
        -0x8000_0000_0000_0000 <= wrapped(nanos) < 0x8000_0000_0000_0000,
        (nanos - wrapped(nanos)) % 0x1_0000_0000_0000_0000 == 0,
{
}

} // verus!
