//! The single reusable event slot and the operations that drive it.
//!
//! The manager owns the one in-flight asynchronous operation: a slot holding
//! a completion callback token and an opaque context, and a scheduler entry
//! armed for it. The host polls `process` with readings of a monotonic
//! microsecond clock and performs the completions handed back; callback and
//! context are opaque tokens the core never interprets.

use crate::scheduler::{due_prefix_len, Scheduler, SchedulerError, TimerEntry};
use vstd::prelude::*;

verus! {

/// Delay, in microseconds, with which `start` arms the slot.
pub const DEFAULT_DELAY_US: u64 = 1000;

/// Handle to the singleton event slot. A null handle selects nothing:
/// operations given one are guarded no-ops, mirroring a null pointer at a C
/// boundary.
#[derive(Clone, Copy, PartialEq, Eq, Structural, Debug)]
pub struct EventHandle {
    live: bool,
}

impl EventHandle {
    /// Whether the handle refers to the slot at all.
    pub closed spec fn is_live(self) -> bool {
        self.live
    }

    /// The handle that selects nothing.
    pub fn null() -> (h: EventHandle)
        ensures
            !h.is_live(),
    {
        EventHandle { live: false }
    }

    /// Whether this is the null handle.
    pub fn is_null(&self) -> (b: bool)
        ensures
            b == !self.is_live(),
    {
        !self.live
    }
}

/// The reusable record for the one operation in flight.
#[derive(Clone, Copy, PartialEq, Eq, Debug)]
pub struct EventSlot {
    /// True once the operation has been armed and not yet fired.
    pub triggered: bool,
    /// Completion callback token; `None` when absent or already consumed.
    pub callback: Option<u64>,
    /// Opaque caller-owned value handed back verbatim with the completion.
    pub context: u64,
    /// Token of the scheduler entry from the latest arming; `None` when no
    /// arming is live for this slot.
    pub timer_token: Option<u64>,
    /// Reserved synchronization field, preserved for structural
    /// compatibility with the host's expectations.
    pub sync_flag: u8,
    /// Reserved timeout field, preserved like `sync_flag`.
    pub timeout_us: u32,
}

/// One completion the host must perform: invoke the callback, when one is
/// present, with the context.
#[derive(Clone, Copy, PartialEq, Eq, Debug)]
pub struct Firing {
    /// The callback token registered when the completion was armed; `None`
    /// when the arming carried no callback or it was already consumed.
    pub callback: Option<u64>,
    /// The context registered with it, handed back verbatim.
    pub context: u64,
}

/// Arming failed; the manager is left unchanged.
#[derive(Clone, Copy, PartialEq, Eq, Structural, Debug)]
pub enum ArmError {
    /// The scheduler's fixed capacity is already reached.
    CapacityExceeded,
    /// Every arming token has been used.
    TokensExhausted,
}

/// Mathematical model of the core: the slot, the pending scheduler entries
/// in their stored order, and the next arming token.
#[verifier::ext_equal]
pub struct CoreView {
    /// The event slot.
    pub slot: EventSlot,
    /// Pending scheduler entries, sorted by deadline.
    pub pending: Seq<TimerEntry>,
    /// The token the next arming will take.
    pub next_token: u64,
}

/// The slot an idle manager starts from: not triggered, nothing registered.
pub open spec fn idle_slot() -> EventSlot {
    EventSlot {
        triggered: false,
        callback: None,
        context: 0,
        timer_token: None,
        sync_flag: 0,
        timeout_us: 0,
    }
}

/// What `stop` leaves: only the triggered flag is cleared. No scheduler
/// entry is cancelled; an armed timer still fires later.
pub open spec fn spec_stop(v: CoreView) -> CoreView {
    CoreView { slot: EventSlot { triggered: false, ..v.slot }, ..v }
}

/// What `trigger_registered_callback` does: when the slot is triggered and
/// still holds a callback, the callback is moved out — so it can never be
/// invoked twice — the flag is re-affirmed for callers that poll it, and the
/// completion is handed back. Otherwise nothing changes.
pub open spec fn spec_trigger(v: CoreView) -> (CoreView, Option<Firing>) {
    if v.slot.triggered && v.slot.callback is Some {
        (
            CoreView { slot: EventSlot { triggered: true, callback: None, ..v.slot }, ..v },
            Some(Firing { callback: v.slot.callback, context: v.slot.context }),
        )
    } else {
        (v, None)
    }
}

/// What a successful `register_callback_oneshot` leaves: the slot is
/// overwritten whole — callback, context, flag cleared, reserved fields
/// zeroed — and one entry with a fresh token is armed at `now + delay_us`.
pub open spec fn spec_register(
    v: CoreView,
    callback: Option<u64>,
    context: u64,
    delay_us: u64,
    now: u64,
) -> CoreView {
    let deadline = (now + delay_us) as u64;
    CoreView {
        slot: EventSlot {
            triggered: false,
            callback,
            context,
            timer_token: Some(v.next_token),
            sync_flag: 0,
            timeout_us: 0,
        },
        pending: v.pending.insert(
            due_prefix_len(v.pending, deadline),
            TimerEntry { deadline, token: v.next_token },
        ),
        next_token: (v.next_token + 1) as u64,
    }
}

/// What a successful `start` leaves: nothing when the slot is already
/// triggered, else an arming with the default delay plus the triggered flag.
pub open spec fn spec_start(v: CoreView, callback: Option<u64>, context: u64, now: u64) -> CoreView {
    if v.slot.triggered {
        v
    } else {
        let r = spec_register(v, callback, context, DEFAULT_DELAY_US, now);
        CoreView { slot: EventSlot { triggered: true, ..r.slot }, ..r }
    }
}

/// What one sweep's worth of fired entries does to the slot, and the
/// completions it emits. An entry acts only if it is the slot's latest
/// arming — its token matches — and then the completion carries the slot's
/// current callback and context, the callback is moved out, and the arming
/// is spent. Stale entries from overwritten armings act on nothing.
pub open spec fn spec_deliver(slot: EventSlot, fired: Seq<TimerEntry>) -> (EventSlot, Seq<Firing>)
    decreases fired.len(),
{
    if fired.len() == 0 {
        (slot, Seq::<Firing>::empty())
    } else {
        if slot.timer_token == Some(fired[0].token) {
            let f = Firing { callback: slot.callback, context: slot.context };
            let cleared = EventSlot { triggered: false, callback: None, timer_token: None, ..slot };
            let rest = spec_deliver(cleared, fired.drop_first());
            (rest.0, seq![f] + rest.1)
        } else {
            spec_deliver(slot, fired.drop_first())
        }
    }
}

/// What `process` at clock reading `now` does: the scheduler sweeps the due
/// prefix, and those entries are delivered against the slot in order.
pub open spec fn spec_process(v: CoreView, now: u64) -> (CoreView, Seq<Firing>) {
    let k = due_prefix_len(v.pending, now);
    let d = spec_deliver(v.slot, v.pending.take(k));
    (CoreView { slot: d.0, pending: v.pending.skip(k), ..v }, d.1)
}

/// Token bookkeeping: every pending token was handed out before
/// `next_token`, no two pending entries share one, and the slot's
/// back-reference, when present, was handed out too. This is what makes an
/// arming token name at most one pending entry.
pub open spec fn tokens_wf(v: CoreView) -> bool {
    &&& forall|i: int| 0 <= i < v.pending.len() ==> (#[trigger] v.pending[i]).token < v.next_token
    &&& forall|i: int, j: int|
        0 <= i < j < v.pending.len() ==> (#[trigger] v.pending[i]).token != (
        #[trigger] v.pending[j]).token
    &&& (v.slot.timer_token matches Some(t) ==> t < v.next_token)
}

/// Owns the singleton event slot and the scheduler, and is the object the
/// host threads through every call.
pub struct EventManager {
    /// The singleton slot.
    pub slot: EventSlot,
    /// The deadline scheduler driven by the slot's armings.
    pub scheduler: Scheduler,
    /// The token the next arming will take.
    pub next_token: u64,
}

impl View for EventManager {
    type V = CoreView;

    open spec fn view(&self) -> CoreView {
        CoreView { slot: self.slot, pending: self.scheduler@, next_token: self.next_token }
    }
}

impl EventManager {
    /// Scheduler invariant plus token bookkeeping; established by `new`,
    /// preserved by every operation.
    pub open spec fn wf(&self) -> bool {
        &&& self.scheduler.wf()
        &&& tokens_wf(self@)
    }

    /// A manager whose scheduler holds at most `capacity` entries at once,
    /// with the slot idle.
    pub fn new(capacity: usize) -> (m: EventManager)
        ensures
            m.wf(),
            m@.slot == idle_slot(),
            m@.pending == Seq::<TimerEntry>::empty(),
            m@.next_token == 0,
            m.scheduler.cap() == capacity as int,
    {
        EventManager {
            slot: EventSlot {
                triggered: false,
                callback: None,
                context: 0,
                timer_token: None,
                sync_flag: 0,
                timeout_us: 0,
            },
            scheduler: Scheduler::new(capacity),
            next_token: 0,
        }
    }

    /// Returns the handle to the singleton slot; it never fails. When no
    /// callback is supplied yet the context is non-null, the slot is started
    /// at once with the default delay — a deliberately asymmetric
    /// convenience of this interface: it acts only when no callback is
    /// supplied yet a context is. The second component reports that
    /// arming's outcome; the handle is returned either way.
    pub fn create(&mut self, callback: Option<u64>, context: u64, now: u64) -> (r: (
        EventHandle,
        Result<(), ArmError>,
    ))
        requires
            old(self).wf(),
            now + DEFAULT_DELAY_US <= u64::MAX,
        ensures
            final(self).wf(),
            final(self).scheduler.cap() == old(self).scheduler.cap(),
            r.0.is_live(),
            !(callback is None && context != 0) ==> *final(self) == *old(self) && r.1 is Ok,
            callback is None && context != 0 ==> final(self).start_outcome(
                *old(self),
                r.1,
                callback,
                context,
                now,
            ),
    {
        let handle = EventHandle { live: true };
        if callback.is_none() && context != 0 {
            let arm = self.start(handle, callback, context, now);
            (handle, arm)
        } else {
            (handle, Ok(()))
        }
    }

    /// Tearing the slot down is deliberately a no-op: the singleton slot is
    /// reused for the whole life of the subsystem.
    pub fn destroy(&mut self, _handle: EventHandle)
        ensures
            *final(self) == *old(self),
    {
    }

    /// Sets the slot to not triggered. Nothing else changes: an
    /// already-armed scheduler entry is not cancelled and will still fire;
    /// that is accepted behavior, not an oversight.
    pub fn stop(&mut self, handle: EventHandle)
        ensures
            handle.is_live() ==> final(self)@ == spec_stop(old(self)@),
            !handle.is_live() ==> *final(self) == *old(self),
            final(self).scheduler == old(self).scheduler,
            final(self).next_token == old(self).next_token,
            old(self).wf() ==> final(self).wf(),
    {
        if handle.is_null() {
            return ;
        }
        self.slot.triggered = false;
        proof {
            assert(self@ =~= spec_stop(old(self)@));
        }
    }

    /// Fires the slot out of band. When the slot is triggered and still
    /// holds a callback, the callback is moved out of the slot — it can
    /// never be invoked twice — the triggered flag is re-affirmed for
    /// callers that poll it, and the completion to perform is returned.
    /// Otherwise nothing changes and nothing is returned.
    pub fn trigger_registered_callback(&mut self) -> (fired: Option<Firing>)
        ensures
            final(self)@ == spec_trigger(old(self)@).0,
            fired == spec_trigger(old(self)@).1,
            fired is Some <==> old(self).slot.triggered && old(self).slot.callback is Some,
            fired is Some ==> fired == Some(
                Firing { callback: old(self).slot.callback, context: old(self).slot.context },
            ) && final(self).slot.callback is None && final(self).slot.triggered,
            fired is None ==> *final(self) == *old(self),
            final(self).scheduler == old(self).scheduler,
            final(self).next_token == old(self).next_token,
            old(self).wf() ==> final(self).wf(),
    {
        if self.slot.triggered && self.slot.callback.is_some() {
            let cb = self.slot.callback;
            self.slot.callback = None;
            self.slot.triggered = true;
            proof {
                assert(self@ =~= spec_trigger(old(self)@).0);
            }
            Some(Firing { callback: cb, context: self.slot.context })
        } else {
            None
        }
    }

    /// The sole arming primitive. With a live handle it overwrites the
    /// slot's callback, context and flags whole and arms one scheduler entry
    /// at `now + delay_us` — overwriting, never queuing: the entry of any
    /// earlier arming is left to fire on nothing. A null handle is a guarded
    /// no-op. When no token or no scheduler room is left, the manager is
    /// unchanged and the condition reported.
    pub fn register_callback_oneshot(
        &mut self,
        handle: EventHandle,
        callback: Option<u64>,
        context: u64,
        delay_us: u64,
        now: u64,
    ) -> (r: Result<(), ArmError>)
        requires
            old(self).wf(),
            now + delay_us <= u64::MAX,
        ensures
            final(self).wf(),
            final(self).scheduler.cap() == old(self).scheduler.cap(),
            !handle.is_live() ==> r is Ok && *final(self) == *old(self),
            handle.is_live() ==> final(self).register_outcome(*old(self), r, callback, context, delay_us, now),
    {
        if handle.is_null() {
            return Ok(());
        }
        if self.next_token == u64::MAX {
            return Err(ArmError::TokensExhausted);
        }
        let token = self.next_token;
        let deadline = now + delay_us;
        match self.scheduler.add(deadline, token) {
            Err(SchedulerError::CapacityExceeded) => Err(ArmError::CapacityExceeded),
            Ok(()) => {
                self.next_token = token + 1;
                self.slot = EventSlot {
                    triggered: false,
                    callback,
                    context,
                    timer_token: Some(token),
                    sync_flag: 0,
                    timeout_us: 0,
                };
                proof {
                    let v0 = old(self)@;
                    assert(self@ =~= spec_register(v0, callback, context, delay_us, now));
                    lemma_register_preserves_tokens_wf(v0, callback, context, delay_us, now);
                }
                Ok(())
            },
        }
    }

    /// What arming leaves, by outcome: tokens exhausted or the scheduler
    /// full mean an error and no change at all; otherwise the arming
    /// succeeded and the state is exactly `spec_register` of the old one.
    pub open spec fn register_outcome(
        self,
        pre: EventManager,
        r: Result<(), ArmError>,
        callback: Option<u64>,
        context: u64,
        delay_us: u64,
        now: u64,
    ) -> bool {
        &&& (r == Err::<(), ArmError>(ArmError::TokensExhausted) <==> pre.next_token == u64::MAX)
        &&& (r == Err::<(), ArmError>(ArmError::CapacityExceeded) <==> pre.next_token != u64::MAX
            && pre@.pending.len() == pre.scheduler.cap())
        &&& (r is Err ==> self == pre)
        &&& (r is Ok <==> pre.next_token != u64::MAX && pre@.pending.len() < pre.scheduler.cap())
        &&& (r is Ok ==> self@ == spec_register(pre@, callback, context, delay_us, now))
    }

    /// What `start` leaves, by outcome, with the default delay.
    pub open spec fn start_outcome(
        self,
        pre: EventManager,
        r: Result<(), ArmError>,
        callback: Option<u64>,
        context: u64,
        now: u64,
    ) -> bool {
        if pre.slot.triggered {
            r is Ok && self == pre
        } else {
            &&& (r is Err ==> self == pre)
            &&& (r is Ok <==> pre.next_token != u64::MAX && pre@.pending.len()
                < pre.scheduler.cap())
            &&& (r is Ok ==> self@ == spec_start(pre@, callback, context, now))
        }
    }

    /// Arms the slot with the default delay, only when it is not already
    /// triggered: starting an already-armed slot is an idempotent no-op, so
    /// no second entry is ever armed for one arming cycle. A null handle is
    /// a guarded no-op.
    pub fn start(
        &mut self,
        handle: EventHandle,
        callback: Option<u64>,
        context: u64,
        now: u64,
    ) -> (r: Result<(), ArmError>)
        requires
            old(self).wf(),
            now + DEFAULT_DELAY_US <= u64::MAX,
        ensures
            final(self).wf(),
            final(self).scheduler.cap() == old(self).scheduler.cap(),
            !handle.is_live() ==> r is Ok && *final(self) == *old(self),
            handle.is_live() ==> final(self).start_outcome(*old(self), r, callback, context, now),
    {
        if handle.is_null() {
            return Ok(());
        }
        if self.slot.triggered {
            return Ok(());
        }
        let r = self.register_callback_oneshot(handle, callback, context, DEFAULT_DELAY_US, now);
        match r {
            Ok(()) => {
                self.slot.triggered = true;
                proof {
                    assert(self@ =~= spec_start(old(self)@, callback, context, now));
                }
                Ok(())
            },
            Err(e) => Err(e),
        }
    }

    /// Delivers everything due at clock reading `now`: sweeps the scheduler,
    /// then lets each swept entry act on the slot in deadline order. Only
    /// the entry of the slot's latest arming acts — it hands back one
    /// completion with the slot's callback and context and spends the
    /// arming, whether or not the slot was stopped meanwhile — so one sweep
    /// hands back at most one completion. The sweep is a snapshot: entries
    /// armed after it returns are never part of it.
    pub fn process(&mut self, now: u64) -> (fired: Vec<Firing>)
        requires
            old(self).wf(),
        ensures
            final(self).wf(),
            final(self).scheduler.cap() == old(self).scheduler.cap(),
            final(self)@ == spec_process(old(self)@, now).0,
            fired@ == spec_process(old(self)@, now).1,
            fired@.len() <= 1,
            forall|i: int|
                0 <= i < fired@.len() ==> fired@[i] == (Firing {
                    callback: old(self).slot.callback,
                    context: old(self).slot.context,
                }),
    {
        let ghost v0 = self@;
        let entries = self.scheduler.expire(now);
        let ghost slot0 = self.slot;
        let ghost sched1 = self.scheduler;
        let ghost nt0 = self.next_token;
        let mut fired: Vec<Firing> = Vec::new();
        let mut i: usize = 0;
        proof {
            assert(entries@.skip(0) =~= entries@);
            assert(Seq::<Firing>::empty() + spec_deliver(slot0, entries@).1 =~= spec_deliver(
                slot0,
                entries@,
            ).1);
        }
        while i < entries.len()
            invariant
                0 <= i <= entries@.len(),
                self.scheduler == sched1,
                self.next_token == nt0,
                spec_deliver(self.slot, entries@.skip(i as int)).0 == spec_deliver(
                    slot0,
                    entries@,
                ).0,
                fired@ + spec_deliver(self.slot, entries@.skip(i as int)).1 == spec_deliver(
                    slot0,
                    entries@,
                ).1,
            decreases entries@.len() - i,
        {
            let ghost slot_pre = self.slot;
            let ghost fired_pre = fired@;
            let e = entries[i];
            let hit = match self.slot.timer_token {
                Some(t) => t == e.token,
                None => false,
            };
            if hit {
                fired.push(Firing { callback: self.slot.callback, context: self.slot.context });
                self.slot.triggered = false;
                self.slot.callback = None;
                self.slot.timer_token = None;
            }
            proof {
                let tail = entries@.skip(i as int);
                assert(tail[0] == entries@[i as int]);
                assert(tail.drop_first() =~= entries@.skip(i + 1));
                if hit {
                    let f = Firing { callback: slot_pre.callback, context: slot_pre.context };
                    assert(self.slot == (EventSlot {
                        triggered: false,
                        callback: None,
                        timer_token: None,
                        ..slot_pre
                    }));
                    assert(spec_deliver(slot_pre, tail).1 == seq![f] + spec_deliver(
                        self.slot,
                        tail.drop_first(),
                    ).1);
                    assert(fired@ == fired_pre.push(f));
                    assert(fired_pre + (seq![f] + spec_deliver(self.slot, tail.drop_first()).1)
                        =~= fired@ + spec_deliver(self.slot, entries@.skip(i + 1)).1);
                } else {
                    assert(spec_deliver(slot_pre, tail) == spec_deliver(
                        self.slot,
                        tail.drop_first(),
                    ));
                }
            }
            i = i + 1;
        }
        proof {
            assert(entries@.skip(i as int) =~= Seq::<TimerEntry>::empty());
            assert(spec_deliver(self.slot, Seq::<TimerEntry>::empty()).0 == self.slot);
            assert(fired@ + Seq::<Firing>::empty() =~= fired@);
            assert(self@ =~= spec_process(v0, now).0);
            lemma_deliver_of_wf_sweep(v0, now);
            assert(fired@.len() <= 1);
            lemma_process_preserves_tokens_wf(v0, now);
        }
        fired
    }
}

/// Arming keeps the token bookkeeping: the new entry takes a token no
/// pending entry holds, and the slot's back-reference points at it.
pub proof fn lemma_register_preserves_tokens_wf(
    v: CoreView,
    callback: Option<u64>,
    context: u64,
    delay_us: u64,
    now: u64,
)
    requires
        tokens_wf(v),
        v.next_token < u64::MAX,
    ensures
        tokens_wf(spec_register(v, callback, context, delay_us, now)),
{
    let v1 = spec_register(v, callback, context, delay_us, now);
    let deadline = (now + delay_us) as u64;
    let p = due_prefix_len(v.pending, deadline);
    crate::scheduler::lemma_due_prefix_len_bounds(v.pending, deadline);
    v.pending.insert_ensures(p, TimerEntry { deadline, token: v.next_token });
    assert forall|i: int| 0 <= i < v1.pending.len() implies (#[trigger] v1.pending[i]).token
        < v1.next_token by {
        if p <= i - 1 < v.pending.len() {
            assert(v1.pending[i] == v.pending[i - 1]);
        }
    }
    assert forall|i: int, j: int| 0 <= i < j < v1.pending.len() implies (
    #[trigger] v1.pending[i]).token != (#[trigger] v1.pending[j]).token by {
        if p <= i - 1 < v.pending.len() {
            assert(v1.pending[i] == v.pending[i - 1]);
        }
        if p <= j - 1 < v.pending.len() {
            assert(v1.pending[j] == v.pending[j - 1]);
        }
    }
}

/// Law: `start` is idempotent on an armed slot. A successful `start` leaves
/// the slot triggered, so a second `start` — whatever its arguments —
/// changes nothing at all: exactly the one entry of the first arming stays
/// outstanding, never a duplicate.
pub proof fn lemma_start_idempotent(
    v: CoreView,
    callback: Option<u64>,
    context: u64,
    now: u64,
    callback2: Option<u64>,
    context2: u64,
    now2: u64,
)
    ensures
        spec_start(spec_start(v, callback, context, now), callback2, context2, now2) == spec_start(
            v,
            callback,
            context,
            now,
        ),
{
}

/// Law: the first trigger consumes the callback. After any trigger, an
/// immediate second trigger fires nothing and changes nothing — the
/// registered action can never run twice through this path.
pub proof fn lemma_trigger_consumes_callback(v: CoreView)
    ensures
        spec_trigger(spec_trigger(v).0).0 == spec_trigger(v).0,
        spec_trigger(spec_trigger(v).0).1 is None,
{
}

/// Completions do not depend on the triggered flag: two slots that differ
/// only there deliver the same completions to the same sweep.
proof fn lemma_deliver_ignores_triggered(s1: EventSlot, s2: EventSlot, fired: Seq<TimerEntry>)
    requires
        s1 == (EventSlot { triggered: s1.triggered, ..s2 }),
    ensures
        spec_deliver(s1, fired).1 == spec_deliver(s2, fired).1,
    decreases fired.len(),
{
    if fired.len() != 0 {
        if s1.timer_token == Some(fired[0].token) {
            let c1 = EventSlot { triggered: false, callback: None, timer_token: None, ..s1 };
            let c2 = EventSlot { triggered: false, callback: None, timer_token: None, ..s2 };
            assert(c1 == c2);
            lemma_deliver_ignores_triggered(c1, c2, fired.drop_first());
        } else {
            lemma_deliver_ignores_triggered(s1, s2, fired.drop_first());
        }
    }
}

/// Law: `stop` does not cancel. It only clears the triggered flag, so a
/// sweep past the original deadline still delivers exactly the completions
/// it would have delivered without the stop — accepted behavior, asserted
/// rather than assumed away.
pub proof fn lemma_stop_does_not_cancel(v: CoreView, now: u64)
    ensures
        spec_process(spec_stop(v), now).1 == spec_process(v, now).1,
{
    let k = due_prefix_len(v.pending, now);
    lemma_deliver_ignores_triggered(spec_stop(v).slot, v.slot, v.pending.take(k));
}

/// Law: re-arming overwrites, it does not queue. After a successful arming,
/// a sweep at any later reading delivers at most one completion, and that
/// completion carries exactly the callback and context registered last;
/// entries left over from earlier armings deliver nothing.
pub proof fn lemma_overwrite_semantics(
    v: CoreView,
    callback: Option<u64>,
    context: u64,
    delay_us: u64,
    now: u64,
    later: u64,
)
    requires
        tokens_wf(v),
        v.next_token < u64::MAX,
    ensures
        spec_process(spec_register(v, callback, context, delay_us, now), later).1.len() <= 1,
        forall|i: int|
            0 <= i < spec_process(spec_register(v, callback, context, delay_us, now), later).1.len()
                ==> spec_process(spec_register(v, callback, context, delay_us, now), later).1[i]
                == (Firing { callback, context }),
{
    let v1 = spec_register(v, callback, context, delay_us, now);
    lemma_register_preserves_tokens_wf(v, callback, context, delay_us, now);
    lemma_deliver_of_wf_sweep(v1, later);
}

/// A sweep against a slot with no live arming delivers nothing.
proof fn lemma_deliver_no_token(slot: EventSlot, fired: Seq<TimerEntry>)
    requires
        slot.timer_token is None,
    ensures
        spec_deliver(slot, fired) == (slot, Seq::<Firing>::empty()),
    decreases fired.len(),
{
    if fired.len() != 0 {
        lemma_deliver_no_token(slot, fired.drop_first());
    }
}

/// When at most one swept entry carries the slot's arming token, at most
/// one completion is delivered, and it carries the slot's callback and
/// context.
proof fn lemma_deliver_unique_token(slot: EventSlot, fired: Seq<TimerEntry>)
    requires
        forall|i: int, j: int|
            0 <= i < j < fired.len() ==> !(Some((#[trigger] fired[i]).token) == slot.timer_token
                && Some((#[trigger] fired[j]).token) == slot.timer_token),
    ensures
        spec_deliver(slot, fired).1.len() <= 1,
        forall|i: int| 0 <= i < spec_deliver(slot, fired).1.len() ==> spec_deliver(slot, fired).1[i]
            == (Firing { callback: slot.callback, context: slot.context }),
    decreases fired.len(),
{
    if fired.len() != 0 {
        if slot.timer_token == Some(fired[0].token) {
            let cleared = EventSlot { triggered: false, callback: None, timer_token: None, ..slot };
            lemma_deliver_no_token(cleared, fired.drop_first());
        } else {
            assert(forall|i: int| 0 <= i < fired.drop_first().len() ==> fired.drop_first()[i]
                == fired[i + 1]);
            lemma_deliver_unique_token(slot, fired.drop_first());
        }
    }
}

/// Under token bookkeeping, the due prefix of one sweep carries the slot's
/// arming token at most once, so the sweep delivers at most one completion.
proof fn lemma_deliver_of_wf_sweep(v: CoreView, now: u64)
    requires
        tokens_wf(v),
    ensures
        spec_process(v, now).1.len() <= 1,
        forall|i: int| 0 <= i < spec_process(v, now).1.len() ==> spec_process(v, now).1[i] == (Firing {
            callback: v.slot.callback,
            context: v.slot.context,
        }),
{
    let k = due_prefix_len(v.pending, now);
    crate::scheduler::lemma_due_prefix_len_bounds(v.pending, now);
    let taken = v.pending.take(k);
    assert(forall|i: int| 0 <= i < taken.len() ==> taken[i] == v.pending[i]);
    lemma_deliver_unique_token(v.slot, taken);
}

/// A sweep never mints tokens: afterwards the bookkeeping still holds.
proof fn lemma_process_preserves_tokens_wf(v: CoreView, now: u64)
    requires
        tokens_wf(v),
    ensures
        tokens_wf(spec_process(v, now).0),
{
    let k = due_prefix_len(v.pending, now);
    crate::scheduler::lemma_due_prefix_len_bounds(v.pending, now);
    let taken = v.pending.take(k);
    let rest = v.pending.skip(k);
    assert(forall|i: int| 0 <= i < rest.len() ==> rest[i] == v.pending[i + k]);
    lemma_deliver_slot_token(v.slot, taken);
}

/// After a delivery the slot's arming back-reference is either unchanged or
/// cleared.
proof fn lemma_deliver_slot_token(slot: EventSlot, fired: Seq<TimerEntry>)
    ensures
        spec_deliver(slot, fired).0.timer_token == slot.timer_token || spec_deliver(
            slot,
            fired,
        ).0.timer_token is None,
    decreases fired.len(),
{
    if fired.len() != 0 {
        if slot.timer_token == Some(fired[0].token) {
            let cleared = EventSlot { triggered: false, callback: None, timer_token: None, ..slot };
            lemma_deliver_slot_token(cleared, fired.drop_first());
        } else {
            lemma_deliver_slot_token(slot, fired.drop_first());
        }
    }
}

} // verus!
