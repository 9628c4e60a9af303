//! What a search costs: the counters, and the interface through which the
//! algorithms report to them.
use vstd::prelude::*;

verus! {

/// The cost of one search.
///
/// `time_ms` is wall-clock time in whole milliseconds. `memory_kb` is an
/// estimate: the number of states held, times the size of a state. The
/// counters stop at `usize::MAX` rather than wrap.
#[derive(Debug, Clone, Copy)]
pub struct Metrics {
    pub time_ms: u128,
    pub memory_kb: usize,
    pub nodes_visited: usize,
    pub nodes_generated: usize,
    pub max_frontier_size: usize,
    pub solution_length: usize,
}

/// `n + 1`, or `usize::MAX` where that does not fit.
pub open spec fn bump(n: usize) -> usize {
    if n < usize::MAX {
        (n + 1) as usize
    } else {
        n
    }
}

/// The count `n`, or `usize::MAX` where it does not fit.
pub open spec fn capped_count(n: int) -> usize {
    if n <= usize::MAX {
        n as usize
    } else {
        usize::MAX
    }
}

/// `a + b`, or `usize::MAX` where that does not fit.
pub open spec fn capped_sum(a: usize, b: usize) -> usize {
    if a + b <= usize::MAX {
        (a + b) as usize
    } else {
        usize::MAX
    }
}

/// The larger of two sizes.
pub open spec fn larger(a: usize, b: usize) -> usize {
    if a >= b {
        a
    } else {
        b
    }
}

/// The memory estimate for `held` states of `state_size` bytes each, in
/// kilobytes rounded down, or `usize::MAX` where that does not fit.
pub open spec fn kilobytes(held: nat, state_size: nat) -> usize {
    if held * state_size / 1024 <= usize::MAX {
        (held * state_size / 1024) as usize
    } else {
        usize::MAX
    }
}

/// No states take no memory.
pub proof fn lemma_kilobytes_of_nothing(state_size: nat)
    ensures
        kilobytes(0, state_size) == 0,
{
    assert(0 * state_size == 0) by (nonlinear_arith);
}

/// More states give no smaller an estimate.
pub proof fn lemma_kilobytes_grow(fewer: nat, more: nat, state_size: nat)
    requires
        fewer <= more,
    ensures
        kilobytes(fewer, state_size) <= kilobytes(more, state_size),
{
    assert(fewer * state_size <= more * state_size) by (nonlinear_arith)
        requires
            fewer <= more,
    ;
    assert(fewer * state_size / 1024 <= more * state_size / 1024) by (nonlinear_arith)
        requires
            0 <= fewer * state_size <= more * state_size,
    ;
}

/// The memory estimate for two collections that hold `first` and `second`
/// states of `state_size` bytes each.
pub fn memory_estimate_kb(first: usize, second: usize, state_size: usize) -> (kb: usize)
    ensures
        kb == kilobytes((first + second) as nat, state_size as nat),
{
    let held: u128 = first as u128 + second as u128;
    match held.checked_mul(state_size as u128) {
        Some(bytes) => {
            let whole: u128 = bytes / 1024;
            if whole <= usize::MAX as u128 {
                whole as usize
            } else {
                usize::MAX
            }
        },
        None => {
            assert(held * state_size / 1024 > usize::MAX) by (nonlinear_arith)
                requires
                    held * state_size > u128::MAX,
                    usize::MAX <= u64::MAX,
            ;
            usize::MAX
        },
    }
}

impl Default for Metrics {
    /// The metrics of a search that has not begun: all zero.
    fn default() -> (m: Self)
        ensures
            m == Metrics::zero(),
    {
        Metrics {
            time_ms: 0,
            memory_kb: 0,
            nodes_visited: 0,
            nodes_generated: 0,
            max_frontier_size: 0,
            solution_length: 0,
        }
    }
}

impl Metrics {
    /// The metrics of a search that has not begun.
    pub open spec fn zero() -> Metrics {
        Metrics {
            time_ms: 0,
            memory_kb: 0,
            nodes_visited: 0,
            nodes_generated: 0,
            max_frontier_size: 0,
            solution_length: 0,
        }
    }

    /// These metrics without their time.
    pub open spec fn untimed(self) -> Metrics {
        Metrics { time_ms: 0, ..self }
    }

    /// These metrics after `event`.
    pub open spec fn after(self, event: Event) -> Metrics {
        match event {
            Event::Started => Metrics { nodes_generated: 1, ..self },
            Event::Resumed => Metrics { nodes_generated: bump(self.nodes_generated), ..self },
            Event::Visited => Metrics { nodes_visited: bump(self.nodes_visited), ..self },
            Event::Generated => Metrics { nodes_generated: bump(self.nodes_generated), ..self },
            Event::Frontier(size) => Metrics {
                max_frontier_size: larger(self.max_frontier_size, size),
                ..self
            },
            Event::Memory(kb) => Metrics { memory_kb: kb, ..self },
            Event::Solved(len) => Metrics { solution_length: len, ..self },
        }
    }

    /// Applies `event` to these metrics.
    pub fn apply(&mut self, event: Event)
        ensures
            *final(self) == old(self).after(event),
    {
        match event {
            Event::Started => {
                self.nodes_generated = 1;
            },
            Event::Resumed => {
                if self.nodes_generated < usize::MAX {
                    self.nodes_generated = self.nodes_generated + 1;
                }
            },
            Event::Visited => {
                if self.nodes_visited < usize::MAX {
                    self.nodes_visited = self.nodes_visited + 1;
                }
            },
            Event::Generated => {
                if self.nodes_generated < usize::MAX {
                    self.nodes_generated = self.nodes_generated + 1;
                }
            },
            Event::Frontier(size) => {
                if size > self.max_frontier_size {
                    self.max_frontier_size = size;
                }
            },
            Event::Memory(kb) => {
                self.memory_kb = kb;
            },
            Event::Solved(len) => {
                self.solution_length = len;
            },
        }
    }
}

/// What an algorithm reports while it runs.
#[derive(Debug, Clone, Copy)]
pub enum Event {
    /// The search begins: the root has been generated, and is the first
    /// node counted.
    Started,
    /// A search made of several rounds begins a further round: its root is
    /// one more node generated, counted on top of those of the rounds
    /// before.
    Resumed,
    /// A node was taken from the frontier.
    Visited,
    /// A node was created.
    Generated,
    /// The frontier holds this many nodes.
    Frontier(usize),
    /// The memory estimate, in kilobytes.
    Memory(usize),
    /// A solution of this length was found.
    Solved(usize),
}

/// The counters `m` after the events of `events`, one after the other.
pub open spec fn replay(m: Metrics, events: Seq<Event>) -> Metrics
    decreases events.len(),
{
    if events.len() == 0 {
        m
    } else {
        replay(m, events.drop_last()).after(events.last())
    }
}

/// Replaying one more event applies it to what the events before gave.
pub proof fn lemma_replay_push(m: Metrics, events: Seq<Event>, event: Event)
    ensures
        replay(m, events.push(event)) == replay(m, events).after(event),
{
    assert(events.push(event).drop_last() =~= events);
}

/// No event changes the time.
pub proof fn lemma_replay_keeps_time(m: Metrics, events: Seq<Event>)
    ensures
        replay(m, events).time_ms == m.time_ms,
    decreases events.len(),
{
    if events.len() > 0 {
        lemma_replay_keeps_time(m, events.drop_last());
    }
}

/// A place to which an algorithm reports its events.
///
/// A recorder keeps the events that it was told, in order, and counters
/// that took note of each. The recorders of this library all keep
/// counters; one that keeps none says so, and nothing is then said of
/// them.
pub trait Recorder {
    /// The counters.
    spec fn counters(&self) -> Option<Metrics>;

    /// The events recorded so far.
    spec fn log(&self) -> Seq<Event>;

    /// Takes note of `event`.
    fn record(&mut self, event: Event)
        ensures
            match old(self).counters() {
                Some(m) => final(self).counters() == Some(m.after(event)),
                None => final(self).counters() is None,
            },
            final(self).log() == old(self).log().push(event),
    ;
}

/// The counters of one search: they start from zero and take note of each
/// event that they are told.
pub struct Tally {
    counted: Metrics,
    sent: Ghost<Seq<Event>>,
}

impl Tally {
    #[verifier::type_invariant]
    spec fn counted_is_replayed(&self) -> bool {
        self.counted == replay(Metrics::zero(), self.sent@)
    }

    /// Counters at zero, with no event recorded.
    pub fn new() -> (r: Self)
        ensures
            r.counters() == Some(Metrics::zero()),
            r.log() == Seq::<Event>::empty(),
    {
        Tally { counted: Metrics::default(), sent: Ghost(Seq::empty()) }
    }

    /// A tally of its own with the same counters and events.
    pub fn copy(&self) -> (r: Self)
        ensures
            r.counters() == self.counters(),
            r.log() == self.log(),
    {
        proof {
            use_type_invariant(self);
        }
        Tally { counted: self.counted, sent: Ghost(self.sent@) }
    }

    /// The counters: what the events recorded make of counters at zero.
    pub fn counts(&self) -> (m: Metrics)
        ensures
            Some(m) == self.counters(),
            m == replay(Metrics::zero(), self.log()),
    {
        proof {
            use_type_invariant(self);
        }
        self.counted
    }
}

impl Recorder for Tally {
    closed spec fn counters(&self) -> Option<Metrics> {
        Some(self.counted)
    }

    closed spec fn log(&self) -> Seq<Event> {
        self.sent@
    }

    fn record(&mut self, event: Event) {
        proof {
            use_type_invariant(&*self);
            lemma_replay_push(Metrics::zero(), self.sent@, event);
        }
        let mut counted = self.counted;
        counted.apply(event);
        *self = Tally { counted, sent: Ghost(self.sent@.push(event)) };
    }
}

} // verus!
