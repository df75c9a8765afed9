//! The flush epoch: a counter that every writer checks into, that a flush
//! rolls forward, and that tells the flush when the writers of the epoch it
//! persists have all left.

use vstd::prelude::*;

verus! {

/// Proof that a writer has checked into an epoch. It is handed back with
/// `FlushEpoch::check_out`.
pub struct FlushEpochGuard {
    epoch: u64,
}

impl FlushEpochGuard {
    /// The epoch that the writer checked into.
    pub closed spec fn spec_epoch(&self) -> u64 {
        self.epoch
    }

    /// The epoch that the writer checked into.
    #[verifier::when_used_as_spec(spec_epoch)]
    pub fn epoch(&self) -> (e: u64)
        ensures
            e == self.spec_epoch(),
    {
        self.epoch
    }
}

/// The epoch coordinator as a plain value.
pub struct FlushEpochView {
    /// The epoch that accepts writers.
    pub current: u64,
    /// Writers checked into the current epoch.
    pub active: nat,
    /// Writers still checked into the epoch before, which is being flushed.
    pub draining: nat,
    /// Whether the epoch before the current one is being flushed.
    pub flushing: bool,
}

impl FlushEpochView {
    /// Epochs are positive, and only an epoch that is being flushed can have
    /// writers left in it: guards exist for at most two adjacent epochs.
    pub open spec fn wf(self) -> bool {
        &&& self.current >= 1
        &&& (self.flushing ==> self.current >= 2)
        &&& (!self.flushing ==> self.draining == 0)
    }

    /// No writer is checked in.
    pub open spec fn idle(self) -> bool {
        self.active == 0 && self.draining == 0
    }
}

/// The epoch coordinator: the current epoch, the writers checked into it
/// and into the epoch before, and whether that one is being flushed.
pub struct FlushEpoch {
    current: u64,
    active: u64,
    draining: u64,
    flushing: bool,
}

impl View for FlushEpoch {
    type V = FlushEpochView;

    closed spec fn view(&self) -> FlushEpochView {
        FlushEpochView {
            current: self.current,
            active: self.active as nat,
            draining: self.draining as nat,
            flushing: self.flushing,
        }
    }
}

impl FlushEpoch {
    /// A coordinator in its first epoch, with no writer and no flush.
    pub fn new() -> (e: FlushEpoch)
        ensures
            e@ == (FlushEpochView { current: 1, active: 0, draining: 0, flushing: false }),
            e@.wf(),
    {
        FlushEpoch { current: 1, active: 0, draining: 0, flushing: false }
    }

    /// The epoch that accepts writers.
    pub fn current_epoch(&self) -> (e: u64)
        ensures
            e == self@.current,
    {
        self.current
    }

    /// Whether the epoch before the current one is being flushed.
    pub fn is_flushing(&self) -> (b: bool)
        ensures
            b == self@.flushing,
    {
        self.flushing
    }

    /// Checks a writer into the current epoch.
    pub fn check_in(&mut self) -> (g: FlushEpochGuard)
        requires
            old(self)@.wf(),
            old(self)@.active < u64::MAX,
        ensures
            g.epoch() == old(self)@.current,
            final(self)@ == (FlushEpochView { active: old(self)@.active + 1, ..old(self)@ }),
            final(self)@.wf(),
    {
        self.active = self.active + 1;
        FlushEpochGuard { epoch: self.current }
    }

    /// Whether `guard` stands for a writer that is still checked in.
    pub open spec fn holds(v: FlushEpochView, epoch: u64) -> bool {
        (epoch == v.current && v.active > 0) || (v.flushing && epoch + 1 == v.current && v.draining
            > 0)
    }

    /// Checks a writer out of the epoch it checked into.
    pub fn check_out(&mut self, guard: FlushEpochGuard)
        requires
            old(self)@.wf(),
            Self::holds(old(self)@, guard.epoch()),
        ensures
            final(self)@ == (if guard.epoch() == old(self)@.current {
                FlushEpochView { active: (old(self)@.active - 1) as nat, ..old(self)@ }
            } else {
                FlushEpochView { draining: (old(self)@.draining - 1) as nat, ..old(self)@ }
            }),
            final(self)@.wf(),
    {
        if guard.epoch == self.current {
            self.active = self.active - 1;
        } else {
            self.draining = self.draining - 1;
        }
    }

    /// Opens the next epoch to writers and starts the flush of the one that
    /// was current, which is returned. Nothing happens, and nothing is
    /// returned, while an earlier flush is under way or when the counter is
    /// at its end.
    pub fn roll_epoch_forward(&mut self) -> (r: Option<u64>)
        requires
            old(self)@.wf(),
        ensures
            final(self)@.wf(),
            (match r {
                Some(e) => {
                    &&& !old(self)@.flushing
                    &&& old(self)@.current < u64::MAX
                    &&& e == old(self)@.current
                    &&& final(self)@ == (FlushEpochView {
                        current: (e + 1) as u64,
                        active: 0,
                        draining: old(self)@.active,
                        flushing: true,
                    })
                },
                None => (old(self)@.flushing || old(self)@.current == u64::MAX) && final(self)@
                    == old(self)@,
            }),
    {
        if self.flushing || self.current == u64::MAX {
            return None;
        }
        let e = self.current;
        self.current = e + 1;
        self.draining = self.active;
        self.active = 0;
        self.flushing = true;
        Some(e)
    }

    /// Whether the epoch being flushed has no writer left in it.
    pub fn is_vacant(&self) -> (b: bool)
        ensures
            b == (self@.flushing && self@.draining == 0),
    {
        self.flushing && self.draining == 0
    }

    /// Ends the flush of the epoch before the current one.
    pub fn mark_complete(&mut self)
        requires
            old(self)@.wf(),
            old(self)@.flushing,
            old(self)@.draining == 0,
        ensures
            final(self)@ == (FlushEpochView { flushing: false, ..old(self)@ }),
            final(self)@.wf(),
    {
        self.flushing = false;
    }
}

} // verus!
