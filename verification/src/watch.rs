use vstd::prelude::*;

verus! {

/// Debounce state of a watch session: the time of the last accepted
/// trigger on a monotonic session clock, in milliseconds, and the
/// debounce interval. Notification callbacks feed events through
/// `on_event`; the caller serialises access (the decision is a
/// check-then-update and must be atomic per event).
#[derive(Clone, Copy, Debug)]
pub struct WatchState {
    pub last_trigger_ms: Option<u64>,
    pub debounce_ms: u64,
}

/// Whether an event at `now_ms` is accepted: always for the first event of
/// a session, afterwards only when more than the debounce interval has
/// elapsed since the last accepted trigger.
pub open spec fn spec_should_trigger(s: WatchState, now_ms: u64) -> bool {
    match s.last_trigger_ms {
        None => true,
        Some(last) => now_ms >= last && now_ms - last > s.debounce_ms,
    }
}

impl WatchState {
    /// A fresh session: the first event always triggers.
    pub fn new(debounce_ms: u64) -> (r: WatchState)
        ensures
            r.last_trigger_ms is None,
            r.debounce_ms == debounce_ms,
    {
        WatchState { last_trigger_ms: None, debounce_ms }
    }

    /// One filesystem event at `now_ms`: an accepted event records its
    /// time and reports `true` (the caller then rebuilds); a suppressed
    /// event leaves the state untouched.
    pub fn on_event(&mut self, now_ms: u64) -> (trigger: bool)
        ensures
            trigger == spec_should_trigger(*old(self), now_ms),
            final(self).debounce_ms == old(self).debounce_ms,
            trigger ==> final(self).last_trigger_ms == Some(now_ms),
            !trigger ==> final(self).last_trigger_ms == old(self).last_trigger_ms,
    {
        let trigger = match self.last_trigger_ms {
            None => true,
            Some(last) => now_ms >= last && now_ms - last > self.debounce_ms,
        };
        if trigger {
            self.last_trigger_ms = Some(now_ms);
        }
        trigger
    }
}

} // verus!
