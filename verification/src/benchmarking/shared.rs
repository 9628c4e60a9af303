//! Metrics that several threads write and read.
use crate::benchmarking::metrics::{
    lemma_replay_keeps_time, replay, Event, Metrics, Recorder, Tally,
};
use crate::clock::millis_since;
use std::sync::{Arc, Mutex, MutexGuard};
use std::time::Instant;
use vstd::prelude::*;

verus! {

/// The standard library's mutual-exclusion lock.
#[verifier::external_type_specification]
#[verifier::external_body]
#[verifier::reject_recursive_types(T)]
pub struct ExMutex<T: ?Sized>(Mutex<T>);

/// The standard library's proof that a lock is held; the lock is released
/// when the guard goes out of scope.
#[verifier::external_type_specification]
#[verifier::external_body]
#[verifier::reject_recursive_types(T)]
pub struct ExMutexGuard<'a, T: ?Sized + 'a>(MutexGuard<'a, T>);

/// `Mutex::new`: a lock made around `metrics`, held by nobody.
#[verifier::external_body]
fn new_lock(metrics: Metrics) -> Mutex<Metrics> {
    Mutex::new(metrics)
}

/// `Arc::clone`: another handle to the same lock.
#[verifier::external_body]
fn share(cell: &Arc<Mutex<Metrics>>) -> Arc<Mutex<Metrics>> {
    Arc::clone(cell)
}

/// `Mutex::lock`: waits until the lock is free and takes it. `None` is the
/// standard library's error: a thread panicked while it held the lock.
#[verifier::external_body]
fn lock(cell: &Arc<Mutex<Metrics>>) -> Option<MutexGuard<'_, Metrics>> {
    match cell.lock() {
        Ok(guard) => Some(guard),
        Err(_) => None,
    }
}

/// The metrics that a held lock protects. While the lock is held nobody
/// else reads or writes them; what they are when the lock is taken is not
/// known, since between two holds any thread may have written them.
pub uninterp spec fn held(guard: MutexGuard<'_, Metrics>) -> Metrics;

/// Reads through the guard of a held lock (`Deref::deref`): the metrics
/// that the lock protects.
#[verifier::external_body]
fn read(guard: &MutexGuard<'_, Metrics>) -> (metrics: Metrics)
    ensures
        metrics == held(*guard),
{
    **guard
}

/// Writes through the guard of a held lock (`DerefMut::deref_mut`): the
/// lock protects `metrics` from now on.
#[verifier::external_body]
fn write(guard: &mut MutexGuard<'_, Metrics>, metrics: Metrics)
    ensures
        held(*final(guard)) == metrics,
{
    **guard = metrics;
}

/// What a reader gets from an attempt to take the lock: the metrics that
/// the lock protects where it was taken, zeroes where it could not be. The
/// lock, if taken, is let go.
pub fn snapshot(locked: Option<MutexGuard<'_, Metrics>>) -> (metrics: Metrics)
    ensures
        metrics == match locked {
            Some(guard) => held(guard),
            None => Metrics::zero(),
        },
{
    match locked {
        Some(guard) => read(&guard),
        None => Metrics::default(),
    }
}

/// One change under a held lock: the metrics that the lock protects take
/// note of `event`, and their time becomes `now`.
pub fn change_held(guard: &mut MutexGuard<'_, Metrics>, event: Event, now: u128)
    ensures
        held(*final(guard)) == (Metrics { time_ms: now, ..held(*old(guard)).after(event) }),
{
    let mut metrics = read(guard);
    metrics.apply(event);
    metrics.time_ms = now;
    write(guard, metrics);
}

/// One replacement under a held lock: the metrics `m` that the lock
/// protects give way to what `f` makes of them, with the time `now` in
/// place of any that `f` wrote.
pub fn replace_held<F: FnOnce(Metrics) -> Metrics>(
    guard: &mut MutexGuard<'_, Metrics>,
    f: F,
    now: u128,
)
    requires
        f.requires((held(*old(guard)),)),
    ensures
        exists|out: Metrics| #[trigger]
            f.ensures((held(*old(guard)),), out) && held(*final(guard)) == (Metrics {
                time_ms: now,
                ..out
            }),
{
    let changed = f(read(guard));
    let timed = Metrics { time_ms: now, ..changed };
    write(guard, timed);
}

/// Metrics behind a lock, with the instant at which they were created,
/// and a tally of what was recorded through this handle.
///
/// Clones share the same metrics. Each method takes the lock, computes the
/// new record from the old one and stores it before it lets the lock go, so
/// no update is lost and no reader sees a record half written. Every write
/// also sets the time of the record to what has passed since the metrics
/// were created. Where a thread has panicked with the lock held, writes do
/// nothing and reads give zeroes.
///
/// What the lock protects is written by every handle, so nothing can be
/// said of it from one handle alone. The tally is the handle's own: it
/// counts the events recorded through `record`, from zero, and a clone
/// starts with a copy of it.
pub struct SharedMetrics {
    inner: Arc<Mutex<Metrics>>,
    start: Instant,
    tally: Tally,
}

impl SharedMetrics {
    /// Fresh metrics, all zero; the clock starts now. Nothing has been
    /// recorded through the handle.
    pub fn new() -> (r: Self)
        ensures
            r.counters() == Some(Metrics::zero()),
            r.log() == Seq::<Event>::empty(),
    {
        SharedMetrics {
            inner: Arc::new(new_lock(Metrics::default())),
            start: Instant::now(),
            tally: Tally::new(),
        }
    }

    /// Forgets what was recorded through this handle: its own counters are
    /// at zero again. What the lock protects stays as it is.
    pub fn restart(&mut self)
        ensures
            final(self).counters() == Some(Metrics::zero()),
            final(self).log() == Seq::<Event>::empty(),
    {
        self.tally = Tally::new();
    }

    /// What was recorded through this handle, counted from zero, with the
    /// time that has passed since the metrics were created. Where no other
    /// handle writes, these are the metrics that the lock protects.
    pub fn counted(&self) -> (m: Metrics)
        ensures
            self.counters() == Some(m.untimed()),
            m.untimed() == replay(Metrics::zero(), self.log()),
    {
        let counts = self.tally.counts();
        proof {
            lemma_replay_keeps_time(Metrics::zero(), self.tally.log());
        }
        Metrics { time_ms: millis_since(&self.start), ..counts }
    }

    /// Replaces the metrics `m` by `f(m)` and refreshes the time: under
    /// the lock, `replace_held` with the time that has passed since the
    /// handle was made.
    ///
    /// `f` runs while the lock is held. It must not read or write these
    /// metrics itself, through this handle or a clone: the lock is not
    /// reentrant, and the call would never return.
    pub fn update<F: FnOnce(Metrics) -> Metrics>(&self, f: F)
        requires
            forall|m: Metrics| f.requires((m,)),
    {
        match lock(&self.inner) {
            Some(mut guard) => {
                let now = millis_since(&self.start);
                replace_held(&mut guard, f, now);
            },
            None => {},
        }
    }

    /// A copy of the metrics as they are now: what `snapshot` makes of
    /// the attempt to take the lock.
    pub fn get(&self) -> Metrics {
        snapshot(lock(&self.inner))
    }

    /// Applies `event` to the metrics and refreshes the time: under the
    /// lock, `change_held` with the time that has passed since the handle
    /// was made.
    fn change(&self, event: Event) {
        match lock(&self.inner) {
            Some(mut guard) => {
                let now = millis_since(&self.start);
                change_held(&mut guard, event, now);
            },
            None => {},
        }
    }

    /// Counts one more node visited, and refreshes the time.
    pub fn increment_visited(&self) {
        self.change(Event::Visited);
    }

    /// Counts one more node generated, and refreshes the time.
    pub fn increment_generated(&self) {
        self.change(Event::Generated);
    }

    /// Raises the largest frontier size seen to `size`, if it was less, and
    /// refreshes the time.
    pub fn update_max_frontier(&self, size: usize) {
        self.change(Event::Frontier(size));
    }

    /// Sets the memory estimate, and refreshes the time.
    pub fn set_memory_kb(&self, kb: usize) {
        self.change(Event::Memory(kb));
    }

    /// Sets the length of the solution found, and refreshes the time.
    pub fn set_solution_length(&self, len: usize) {
        self.change(Event::Solved(len));
    }
}

impl Clone for SharedMetrics {
    /// Another handle to the same metrics.
    fn clone(&self) -> Self {
        SharedMetrics { inner: share(&self.inner), start: self.start, tally: self.tally.copy() }
    }
}

impl Default for SharedMetrics {
    /// Fresh metrics, as `new` gives them.
    fn default() -> (r: Self)
        ensures
            r.counters() == Some(Metrics::zero()),
            r.log() == Seq::<Event>::empty(),
    {
        SharedMetrics::new()
    }
}

impl Recorder for SharedMetrics {
    /// What was recorded through this handle, counted from zero. What the
    /// lock protects is another matter: other handles write it too.
    closed spec fn counters(&self) -> Option<Metrics> {
        self.tally.counters()
    }

    closed spec fn log(&self) -> Seq<Event> {
        self.tally.log()
    }

    fn record(&mut self, event: Event) {
        self.tally.record(event);
        self.change(event);
    }
}

} // verus!
