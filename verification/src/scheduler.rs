//! Dated future events, earliest first. Times are nanoseconds on the
//! scheduler's monotonic clock, counted from the scheduler's creation.

use std::time::Instant;

use vstd::prelude::*;

verus! {

/// Something that happens at a given time.
#[derive(Debug, Clone, Copy, PartialEq, Eq)]
pub enum Event {
    ActionDone { player: u32, command_id: u64 },
    RespawnResources,
    IncantationDone { tile: (usize, usize), level: u8 },
    Starve { player: u32 },
}

/// A point on the monotonic clock of the standard library.
#[verifier::external_type_specification]
#[verifier::external_body]
pub struct ExInstant(Instant);

/// Reads the monotonic clock, through `Instant::now`.
#[verifier::external_body]
fn instant_now() -> Instant {
    Instant::now()
}

/// Nanoseconds elapsed on the monotonic clock since `origin`, through
/// `Instant::elapsed`.
#[verifier::external_body]
fn nanos_since(origin: &Instant) -> u128 {
    origin.elapsed().as_nanos()
}

/// Nanoseconds taken by an action of `cost` time units at frequency `f`
/// (`cost / f` seconds), rounded down.
pub open spec fn delay_nanos(cost: u32, f: u32) -> nat {
    (cost as nat * 1_000_000_000) / (f as nat)
}

/// Deadline of an action of `cost` time units at frequency `f` started at
/// time `now`, saturating at the largest time.
pub open spec fn deadline(now: u128, cost: u32, f: u32) -> u128 {
    if now + delay_nanos(cost, f) <= u128::MAX {
        (now + delay_nanos(cost, f)) as u128
    } else {
        u128::MAX
    }
}

/// Deadlines never decrease along `s`.
pub open spec fn by_deadline(s: Seq<(u128, Event)>) -> bool {
    forall|i: int, j: int| 0 <= i <= j < s.len() ==> s[i].0 <= s[j].0
}

/// Number of leading entries of `s` due no later than `at`.
pub open spec fn due_prefix(s: Seq<(u128, Event)>, at: u128) -> nat
    decreases s.len(),
{
    if s.len() > 0 && s[0].0 <= at {
        1 + due_prefix(s.drop_first(), at)
    } else {
        0
    }
}

/// `s` with `(at, e)` placed after every entry due no later than `at`.
pub open spec fn scheduled(s: Seq<(u128, Event)>, at: u128, e: Event) -> Seq<(u128, Event)> {
    s.insert(due_prefix(s, at) as int, (at, e))
}

/// The pending events, earliest first (`wf`: ordered by deadline; events
/// with the same deadline in the order they were scheduled).
pub struct Scheduler {
    pub entries: Vec<(u128, Event)>,
    pub origin: Instant,
}

impl Scheduler {
    pub open spec fn wf(&self) -> bool {
        by_deadline(self.entries@)
    }

    /// An empty scheduler whose clock starts now.
    pub fn new() -> (s: Scheduler)
        ensures
            s.wf(),
            s.entries@.len() == 0,
    {
        Scheduler { entries: Vec::new(), origin: instant_now() }
    }

    /// Current time on this scheduler's clock.
    pub fn now(&self) -> u128 {
        nanos_since(&self.origin)
    }

    /// Schedules `event` `cost / f` seconds from now.
    pub fn schedule_units(&mut self, cost: u32, f: u32, event: Event)
        requires
            old(self).wf(),
            f > 0,
        ensures
            final(self).wf(),
            final(self).origin == old(self).origin,
            exists|now: u128|
                #![trigger deadline(now, cost, f)]
                final(self).entries@ == scheduled(old(self).entries@, deadline(now, cost, f), event),
    {
        let now = self.now();
        self.schedule_after(now, cost, f, event);
        assert(self.entries@ == scheduled(old(self).entries@, deadline(now, cost, f), event));
    }

    /// Schedules `event` `cost / f` seconds after time `now` (the deadline
    /// saturating at the largest time).
    pub fn schedule_after(&mut self, now: u128, cost: u32, f: u32, event: Event)
        requires
            old(self).wf(),
            f > 0,
        ensures
            final(self).wf(),
            final(self).origin == old(self).origin,
            final(self).entries@ == scheduled(old(self).entries@, deadline(now, cost, f), event),
    {
        let delay = (cost as u128) * 1_000_000_000 / (f as u128);
        let at = now.saturating_add(delay);
        self.schedule_at(at, event);
    }

    /// Schedules `event` at time `at`.
    pub fn schedule_at(&mut self, at: u128, event: Event)
        requires
            old(self).wf(),
        ensures
            final(self).wf(),
            final(self).origin == old(self).origin,
            final(self).entries@ == scheduled(old(self).entries@, at, event),
    {
        let ghost s = self.entries@;
        let mut k: usize = 0;
        assert(s.skip(0) =~= s);
        while k < self.entries.len() && self.entries[k].0 <= at
            invariant
                k <= self.entries@.len(),
                self.entries@ == s,
                by_deadline(s),
                due_prefix(s, at) == k + due_prefix(s.skip(k as int), at),
                forall|i: int| 0 <= i < k ==> s[i].0 <= at,
            decreases self.entries@.len() - k,
        {
            assert(s.skip(k as int).drop_first() =~= s.skip(k + 1));
            k += 1;
        }
        assert(due_prefix(s.skip(k as int), at) == 0);
        self.entries.insert(k, (at, event));
        proof {
            let t = self.entries@;
            assert forall|i: int, j: int| 0 <= i <= j < t.len() implies t[i].0 <= t[j].0 by {
                if i < k && j > k {
                    assert(t[j] == s[j - 1]);
                } else if i == k && j > k {
                    assert(t[j] == s[j - 1]);
                    assert(s[j - 1].0 > at);
                }
            }
        }
    }

    /// Time left until the earliest deadline, from time `now` (zero when
    /// it has passed); `None` when nothing is scheduled.
    pub fn timeout_at(&self, now: u128) -> (r: Option<u128>)
        ensures
            self.entries@.len() == 0 ==> r is None,
            self.entries@.len() > 0 ==> r == Some(
                if self.entries@[0].0 >= now {
                    (self.entries@[0].0 - now) as u128
                } else {
                    0u128
                },
            ),
    {
        if self.entries.len() == 0 {
            None
        } else {
            Some(self.entries[0].0.saturating_sub(now))
        }
    }

    /// Time left until the earliest deadline (zero when it has passed);
    /// `None` when nothing is scheduled.
    pub fn next_timeout(&self) -> (r: Option<u128>)
        ensures
            (r is None) == (self.entries@.len() == 0),
            r matches Some(t) ==> t <= self.entries@[0].0,
    {
        let now = self.now();
        self.timeout_at(now)
    }

    /// Takes the earliest event if its deadline is no later than `now`.
    pub fn pop_due(&mut self, now: u128) -> (r: Option<Event>)
        requires
            old(self).wf(),
        ensures
            final(self).wf(),
            final(self).origin == old(self).origin,
            old(self).entries@.len() > 0 && old(self).entries@[0].0 <= now ==> {
                &&& r == Some(old(self).entries@[0].1)
                &&& final(self).entries@ == old(self).entries@.drop_first()
            },
            !(old(self).entries@.len() > 0 && old(self).entries@[0].0 <= now) ==> {
                &&& r is None
                &&& final(self).entries@ == old(self).entries@
            },
    {
        if self.entries.len() > 0 && self.entries[0].0 <= now {
            let (_, event) = self.entries.remove(0);
            assert(self.entries@ =~= old(self).entries@.drop_first());
            Some(event)
        } else {
            None
        }
    }
}

/// A popped event is due: nothing is handed out before its deadline, and
/// what is handed out is due no later than every event left behind.
pub proof fn law_pop_is_earliest(s: Seq<(u128, Event)>, now: u128)
    requires
        by_deadline(s),
        s.len() > 0,
        s[0].0 <= now,
    ensures
        forall|i: int| 0 <= i < s.len() ==> s[0].0 <= #[trigger] s[i].0,
        by_deadline(s.drop_first()),
{
}

/// Scheduling keeps the order: the new event comes after every event due
/// no later than it, and before every event due later.
pub proof fn law_scheduled_position(s: Seq<(u128, Event)>, at: u128, e: Event, i: int)
    requires
        by_deadline(s),
        0 <= i < s.len(),
    ensures
        i < due_prefix(s, at) <==> s[i].0 <= at,
        scheduled(s, at, e)[due_prefix(s, at) as int] == (at, e),
        scheduled(s, at, e).len() == s.len() + 1,
    decreases s.len(),
{
    lemma_due_prefix_bound(s, at);
    if s.len() > 0 && s[0].0 <= at && i > 0 {
        law_scheduled_position(s.drop_first(), at, e, i - 1);
    }
}

proof fn lemma_due_prefix_bound(s: Seq<(u128, Event)>, at: u128)
    ensures
        due_prefix(s, at) <= s.len(),
    decreases s.len(),
{
    if s.len() > 0 && s[0].0 <= at {
        lemma_due_prefix_bound(s.drop_first(), at);
    }
}

} // verus!
