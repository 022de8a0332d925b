//! Managed window registry: the authoritative insertion-ordered mapping
//! from window identifier to per-window state.

use vstd::prelude::*;

verus! {

/// Lifecycle state of one managed window.
#[derive(Clone, Copy, Debug, PartialEq, Eq, Structural)]
pub enum WindowState {
    /// Focused or otherwise not scheduled for suspension.
    Active,
    /// Unfocused; will be suspended once the deadline passes.
    PendingSuspend { deadline: u64 },
    /// Subtree frozen; will be thawed for housekeeping at `next_thaw`.
    Suspended { next_thaw: u64 },
    /// Subtree briefly running again; will be refrozen once the deadline
    /// passes.
    Thawing { deadline: u64 },
}

/// Per-window record owned by the scheduler.
pub struct ManagedWindow {
    /// Compositor-issued window identifier, stable for the window's life.
    pub wid: u64,
    /// Window class, matched against preset class substrings.
    pub class: String,
    /// Window title, kept for diagnostics.
    pub title: String,
    /// Compositor-reported root pid; zero when the compositor knows none,
    /// in which case the window is never suspended.
    pub root_pid: u32,
    /// Index of the governing preset in the configured preset list, or
    /// `None` for the global defaults.
    pub preset: Option<usize>,
    /// Pids most recently frozen, shallowest first; empty unless the
    /// window is `Suspended` or `Thawing`.
    pub subtree: Vec<u32>,
    /// Current lifecycle state.
    pub state: WindowState,
    /// Time of the last state change.
    pub last_transition_at: u64,
}

/// Insertion-ordered collection of managed windows, keyed by wid.
pub struct Registry {
    /// The windows, in insertion order.
    pub windows: Vec<ManagedWindow>,
}

impl Registry {
    /// Each wid occurs at most once.
    pub open spec fn wids_unique(self) -> bool {
        forall|a: int, b: int|
            0 <= a < b < self.windows@.len() ==> self.windows@[a].wid != self.windows@[b].wid
    }

    /// The registry starts empty.
    pub fn new() -> (r: Registry)
        ensures
            r.windows@.len() == 0,
            r.wids_unique(),
    {
        Registry { windows: Vec::new() }
    }

    /// How many windows are managed.
    pub fn len(&self) -> (n: usize)
        ensures
            n == self.windows@.len(),
    {
        self.windows.len()
    }

    /// The position of the window with identifier `wid`, if it is managed.
    pub fn find(&self, wid: u64) -> (r: Option<usize>)
        ensures
            match r {
                Some(i) => i < self.windows@.len() && self.windows@[i as int].wid == wid,
                None => forall|i: int| 0 <= i < self.windows@.len() ==> self.windows@[i].wid != wid,
            },
    {
        let mut i: usize = 0;
        while i < self.windows.len()
            invariant
                i <= self.windows@.len(),
                forall|j: int| 0 <= j < i ==> self.windows@[j].wid != wid,
            decreases self.windows@.len() - i,
        {
            if self.windows[i].wid == wid {
                return Some(i);
            }
            i = i + 1;
        }
        None
    }

    /// Record a state change of window `i` that leaves its subtree alone.
    pub fn set_state(&mut self, i: usize, s: WindowState, now: u64)
        requires
            i < old(self).windows@.len(),
        ensures
            final(self).windows@ == old(self).windows@.update(
                i as int,
                (ManagedWindow {
                    state: s,
                    last_transition_at: now,
                    ..old(self).windows@[i as int]
                }),
            ),
    {
        self.windows[i].state = s;
        self.windows[i].last_transition_at = now;
    }

    /// Record a state change of window `i` together with the pid set it
    /// now holds.
    pub fn apply_transition(&mut self, i: usize, s: WindowState, subtree: Vec<u32>, now: u64)
        requires
            i < old(self).windows@.len(),
        ensures
            final(self).windows@ == old(self).windows@.update(
                i as int,
                (ManagedWindow {
                    state: s,
                    subtree: final(self).windows@[i as int].subtree,
                    last_transition_at: now,
                    ..old(self).windows@[i as int]
                }),
            ),
            final(self).windows@[i as int].subtree@ == subtree@,
    {
        self.windows[i].state = s;
        self.windows[i].subtree = subtree;
        self.windows[i].last_transition_at = now;
    }
}

} // verus!
