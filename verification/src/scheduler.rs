//! A deadline scheduler with a fixed capacity chosen at construction.
//!
//! Entries are kept sorted by deadline, ties in insertion order, so a sweep
//! removes and returns a prefix: exactly the entries whose deadline has
//! passed, each exactly once, in non-decreasing deadline order.

use vstd::prelude::*;

verus! {

/// One armed deadline together with the token of the action to run when it
/// fires. The token is opaque to the scheduler; the layer above decides what
/// it means.
#[derive(Clone, Copy, PartialEq, Eq, Structural, Debug)]
pub struct TimerEntry {
    /// Absolute deadline, in microseconds of the host's monotonic clock.
    pub deadline: u64,
    /// Identifies the action to run; opaque to the scheduler.
    pub token: u64,
}

/// The scheduler cannot accept a new entry.
#[derive(Clone, Copy, PartialEq, Eq, Structural, Debug)]
pub enum SchedulerError {
    /// The fixed capacity is already reached. Dropping a timer silently
    /// would lose a pending action, so the condition is reported instead.
    CapacityExceeded,
}

/// Entries stand in non-decreasing deadline order.
pub open spec fn sorted_by_deadline(s: Seq<TimerEntry>) -> bool {
    forall|i: int, j: int| 0 <= i <= j < s.len() ==> s[i].deadline <= s[j].deadline
}

/// Length of the leading run of entries whose deadline is at most `now`.
/// On a deadline-sorted sequence this is where a sweep at `now` splits it.
pub open spec fn due_prefix_len(s: Seq<TimerEntry>, now: u64) -> int
    decreases s.len(),
{
    if s.len() == 0 || s[0].deadline > now {
        0
    } else {
        1 + due_prefix_len(s.drop_first(), now)
    }
}

pub proof fn lemma_due_prefix_len_bounds(s: Seq<TimerEntry>, now: u64)
    ensures
        0 <= due_prefix_len(s, now) <= s.len(),
    decreases s.len(),
{
    if s.len() != 0 && s[0].deadline <= now {
        lemma_due_prefix_len_bounds(s.drop_first(), now);
    }
}

/// The leading due run is pinned down by its two borders: everything before
/// it is due, and the entry right after it, if any, is not.
pub proof fn lemma_due_prefix_len_is(s: Seq<TimerEntry>, now: u64, k: int)
    requires
        0 <= k <= s.len(),
        forall|j: int| 0 <= j < k ==> s[j].deadline <= now,
        k < s.len() ==> s[k].deadline > now,
    ensures
        due_prefix_len(s, now) == k,
    decreases s.len(),
{
    if k == 0 {
    } else {
        assert(s[0].deadline <= now);
        assert forall|j: int| 0 <= j < k - 1 implies s.drop_first()[j].deadline <= now by {
            assert(s.drop_first()[j] == s[j + 1]);
        }
        if k - 1 < s.drop_first().len() {
            assert(s.drop_first()[k - 1] == s[k]);
        }
        lemma_due_prefix_len_is(s.drop_first(), now, k - 1);
    }
}

/// On a sorted sequence, the leading due run holds every due entry: all
/// entries before the split are due, all entries from it on are not.
pub proof fn lemma_due_prefix_borders(s: Seq<TimerEntry>, now: u64)
    requires
        sorted_by_deadline(s),
    ensures
        forall|i: int| 0 <= i < due_prefix_len(s, now) ==> s[i].deadline <= now,
        forall|i: int| due_prefix_len(s, now) <= i < s.len() ==> s[i].deadline > now,
    decreases s.len(),
{
    lemma_due_prefix_len_bounds(s, now);
    let k = due_prefix_len(s, now);
    if s.len() == 0 || s[0].deadline > now {
        assert forall|i: int| k <= i < s.len() implies s[i].deadline > now by {
            assert(s[0].deadline <= s[i].deadline);
        }
    } else {
        assert(sorted_by_deadline(s.drop_first())) by {
            assert forall|i: int, j: int|
                0 <= i <= j < s.drop_first().len() implies s.drop_first()[i].deadline
                <= s.drop_first()[j].deadline by {
                assert(s.drop_first()[i] == s[i + 1]);
                assert(s.drop_first()[j] == s[j + 1]);
            }
        }
        lemma_due_prefix_borders(s.drop_first(), now);
        assert forall|i: int| 0 <= i < k implies s[i].deadline <= now by {
            if i > 0 {
                assert(s.drop_first()[i - 1] == s[i]);
            }
        }
        assert forall|i: int| k <= i < s.len() implies s[i].deadline > now by {
            assert(s.drop_first()[i - 1] == s[i]);
        }
    }
}

proof fn lemma_filter_all_hold(s: Seq<TimerEntry>, pred: spec_fn(TimerEntry) -> bool)
    requires
        forall|i: int| 0 <= i < s.len() ==> pred(s[i]),
    ensures
        s.filter(pred) == s,
    decreases s.len(),
{
    reveal(Seq::filter);
    if s.len() != 0 {
        assert(forall|i: int| 0 <= i < s.drop_last().len() ==> pred(s.drop_last()[i]));
        lemma_filter_all_hold(s.drop_last(), pred);
        assert(s.drop_last().push(s.last()) =~= s);
    }
}

proof fn lemma_filter_none_hold(s: Seq<TimerEntry>, pred: spec_fn(TimerEntry) -> bool)
    requires
        forall|i: int| 0 <= i < s.len() ==> !pred(s[i]),
    ensures
        s.filter(pred) == Seq::<TimerEntry>::empty(),
    decreases s.len(),
{
    reveal(Seq::filter);
    if s.len() != 0 {
        assert(forall|i: int| 0 <= i < s.drop_last().len() ==> !pred(s.drop_last()[i]));
        lemma_filter_none_hold(s.drop_last(), pred);
    }
}

/// Law: a sweep at `now` of a deadline-sorted schedule removes and returns
/// exactly the entries whose deadline is at most `now` — each exactly once,
/// in the stored non-decreasing deadline order — and keeps exactly the rest.
pub proof fn lemma_sweep_fires_exactly_due(s: Seq<TimerEntry>, now: u64)
    requires
        sorted_by_deadline(s),
    ensures
        s.take(due_prefix_len(s, now)) == s.filter(|e: TimerEntry| e.deadline <= now),
        s.skip(due_prefix_len(s, now)) == s.filter(|e: TimerEntry| e.deadline > now),
{
    let k = due_prefix_len(s, now);
    lemma_due_prefix_len_bounds(s, now);
    lemma_due_prefix_borders(s, now);
    let due = |e: TimerEntry| e.deadline <= now;
    let late = |e: TimerEntry| e.deadline > now;
    assert(s.take(k) + s.skip(k) =~= s);
    Seq::filter_distributes_over_add(s.take(k), s.skip(k), due);
    Seq::filter_distributes_over_add(s.take(k), s.skip(k), late);
    lemma_filter_all_hold(s.take(k), due);
    lemma_filter_none_hold(s.skip(k), due);
    lemma_filter_none_hold(s.take(k), late);
    lemma_filter_all_hold(s.skip(k), late);
    assert(s.take(k) + Seq::<TimerEntry>::empty() =~= s.take(k));
    assert(Seq::<TimerEntry>::empty() + s.skip(k) =~= s.skip(k));
}

/// Holds armed deadlines, sorted by deadline with ties in insertion order,
/// up to a fixed capacity chosen at construction.
pub struct Scheduler {
    entries: Vec<TimerEntry>,
    capacity: usize,
}

impl View for Scheduler {
    type V = Seq<TimerEntry>;

    closed spec fn view(&self) -> Seq<TimerEntry> {
        self.entries@
    }
}

impl Scheduler {
    /// The fixed number of entries this scheduler can hold at once.
    pub closed spec fn cap(&self) -> int {
        self.capacity as int
    }

    /// Entries sorted and within capacity; established by `new`, preserved
    /// by every operation.
    pub open spec fn wf(&self) -> bool {
        &&& sorted_by_deadline(self@)
        &&& self@.len() <= self.cap()
    }

    /// An empty scheduler that will hold at most `capacity` entries.
    pub fn new(capacity: usize) -> (s: Scheduler)
        ensures
            s.wf(),
            s@ == Seq::<TimerEntry>::empty(),
            s.cap() == capacity as int,
    {
        Scheduler { entries: Vec::new(), capacity }
    }

    /// How many entries are pending.
    pub fn len(&self) -> (n: usize)
        ensures
            n == self@.len(),
    {
        self.entries.len()
    }

    /// The fixed capacity.
    pub fn capacity(&self) -> (c: usize)
        ensures
            c as int == self.cap(),
    {
        self.capacity
    }

    /// Inserts an entry. A deadline in the past is legal and fires on the
    /// next sweep. The entry goes after every entry with a deadline at most
    /// its own, so ties keep insertion order. When the capacity is already
    /// reached the scheduler is left unchanged and the condition is reported.
    pub fn add(&mut self, deadline: u64, token: u64) -> (r: Result<(), SchedulerError>)
        requires
            old(self).wf(),
        ensures
            final(self).wf(),
            final(self).cap() == old(self).cap(),
            r is Ok <==> old(self)@.len() < old(self).cap(),
            r is Ok ==> final(self)@ == old(self)@.insert(
                due_prefix_len(old(self)@, deadline),
                TimerEntry { deadline, token },
            ),
            r is Err ==> *final(self) == *old(self) && r == Err::<(), SchedulerError>(
                SchedulerError::CapacityExceeded,
            ),
    {
        if self.entries.len() == self.capacity {
            return Err(SchedulerError::CapacityExceeded);
        }
        let ghost s0 = self.entries@;
        let mut i: usize = 0;
        while i < self.entries.len() && self.entries[i].deadline <= deadline
            invariant
                self.entries@ == s0,
                0 <= i <= s0.len(),
                forall|j: int| 0 <= j < i ==> s0[j].deadline <= deadline,
            decreases s0.len() - i,
        {
            i = i + 1;
        }
        proof {
            lemma_due_prefix_len_is(s0, deadline, i as int);
        }
        let entry = TimerEntry { deadline, token };
        self.entries.insert(i, entry);
        proof {
            lemma_due_prefix_borders(s0, deadline);
            let s1 = self.entries@;
            assert forall|p: int, q: int| 0 <= p <= q < s1.len() implies s1[p].deadline
                <= s1[q].deadline by {
                assert(forall|j: int| 0 <= j < i ==> s1[j] == s0[j]);
                assert(s1[i as int] == entry);
                assert(forall|j: int| i < j < s1.len() ==> s1[j] == s0[j - 1]);
            }
        }
        Ok(())
    }

    /// Sweeps every entry whose deadline is at most `now`: removes them and
    /// returns them in non-decreasing deadline order, ties in insertion
    /// order. Entries with a later deadline remain pending. Entries added
    /// after the sweep returns are, by construction, never part of it.
    pub fn expire(&mut self, now: u64) -> (fired: Vec<TimerEntry>)
        requires
            old(self).wf(),
        ensures
            final(self).wf(),
            final(self).cap() == old(self).cap(),
            fired@ == old(self)@.take(due_prefix_len(old(self)@, now)),
            final(self)@ == old(self)@.skip(due_prefix_len(old(self)@, now)),
            forall|i: int| 0 <= i < fired@.len() ==> fired@[i].deadline <= now,
            forall|i: int| 0 <= i < final(self)@.len() ==> final(self)@[i].deadline > now,
    {
        let ghost s0 = self.entries@;
        let mut k: usize = 0;
        while k < self.entries.len() && self.entries[k].deadline <= now
            invariant
                self.entries@ == s0,
                0 <= k <= s0.len(),
                forall|j: int| 0 <= j < k ==> s0[j].deadline <= now,
            decreases s0.len() - k,
        {
            k = k + 1;
        }
        proof {
            lemma_due_prefix_len_is(s0, now, k as int);
            lemma_due_prefix_borders(s0, now);
        }
        let mut rest = self.entries.split_off(k);
        core::mem::swap(&mut self.entries, &mut rest);
        proof {
            assert(rest@ =~= s0.take(k as int));
            assert(self.entries@ =~= s0.skip(k as int));
        }
        rest
    }
}

} // verus!
