//! Scheduler / state machine: fuses window events, one-second ticks and
//! power-state changes into one consistent lifecycle per managed window,
//! and computes the signal batches for the caller to deliver.

use vstd::prelude::*;
use vstd::pervasive::VecAdditionalExecFns;
use crate::config::{Preset, Settings};
use crate::matcher::first_match_is;
use crate::matcher::match_preset;
use crate::process::ProcRecord;
use crate::registry::{ManagedWindow, Registry, WindowState};

verus! {

/// An instruction to a collaborator (signal issuer or power source),
/// emitted by the scheduler for the caller to carry out.
#[derive(Debug, Clone, PartialEq)]
pub enum Action {
    /// Send the stop signal to the pids, in the given order (leaves
    /// first).
    Freeze { pids: Vec<u32> },
    /// Send the continue signal to the pids, in the given order (root
    /// first).
    Thaw { pids: Vec<u32> },
    /// Cap the CPU frequency at this many MHz.
    CapFrequency { mhz: u64 },
    /// Lift the CPU frequency cap.
    UncapFrequency,
}

/// `a` stops exactly the pid sequence `pids`.
pub open spec fn action_freezes(a: Action, pids: Seq<u32>) -> bool {
    match a {
        Action::Freeze { pids: q } => q@ == pids,
        _ => false,
    }
}

/// `a` resumes exactly the pid sequence `pids`.
pub open spec fn action_thaws(a: Action, pids: Seq<u32>) -> bool {
    match a {
        Action::Thaw { pids: q } => q@ == pids,
        _ => false,
    }
}

/// No stop or continue signal stands among the actions.
pub open spec fn no_signal_actions(acts: Seq<Action>) -> bool {
    forall|i: int|
        0 <= i < acts.len() ==> !((#[trigger] acts[i]) is Freeze) && !(acts[i] is Thaw)
}

/// One event of the merged stream the scheduler consumes.
pub enum Event {
    /// One-second tick, carrying the current time and a fresh snapshot of
    /// the process table.
    Tick { now: u64, table: Vec<ProcRecord> },
    /// The focused window changed; `None` means no window has focus.
    Focus { wid: Option<u64>, now: u64 },
    /// A window opened.
    Opened { wid: u64, class: String, title: String, root_pid: u32, now: u64 },
    /// A window closed.
    Closed { wid: u64, now: u64 },
    /// The power source flipped between battery and AC.
    Power { on_battery: bool, now: u64 },
}

/// Deadline arithmetic saturates at the largest representable time.
pub open spec fn spec_sat_add(a: u64, b: u64) -> u64 {
    if a + b > u64::MAX {
        u64::MAX
    } else {
        (a + b) as u64
    }
}

/// Saturating addition of two timestamps.
pub fn sat_add(a: u64, b: u64) -> (r: u64)
    ensures
        r == spec_sat_add(a, b),
{
    if a > u64::MAX - b {
        u64::MAX
    } else {
        a + b
    }
}

/// A copy of a pid list.
fn clone_pids(v: &Vec<u32>) -> (r: Vec<u32>)
    ensures
        r@ == v@,
{
    let mut out: Vec<u32> = Vec::new();
    let mut i: usize = 0;
    while i < v.len()
        invariant
            i <= v@.len(),
            out@ == v@.take(i as int),
        decreases v@.len() - i,
    {
        out.push(v[i]);
        proof {
            assert(out@ =~= v@.take(i + 1));
        }
        i = i + 1;
    }
    proof {
        assert(out@ =~= v@);
    }
    out
}

/// Whether `x` occurs in `v`.
fn contains_u64(v: &Vec<u64>, x: u64) -> (r: bool)
    ensures
        r == v@.contains(x),
{
    let mut i: usize = 0;
    while i < v.len()
        invariant
            i <= v@.len(),
            forall|j: int| 0 <= j < i ==> v@[j] != x,
        decreases v@.len() - i,
    {
        if v[i] == x {
            return true;
        }
        i = i + 1;
    }
    false
}

/// The scheduler: sole owner of the registry and of the cached power
/// state.  It is a pure fold over events; all outside work is returned as
/// `Action` values.
pub struct Scheduler {
    /// Global settings, immutable after construction.
    pub settings: Settings,
    /// Configured presets, in file order, immutable after construction.
    pub presets: Vec<Preset>,
    /// The managed windows.
    pub registry: Registry,
    /// The wid the compositor reports focused, if any.
    pub focused: Option<u64>,
    /// A focus event that arrived before its window's open event, kept
    /// until that window is inserted.
    pub pending_focus: Option<u64>,
    /// Cached power-source state.
    pub on_battery: bool,
    /// Time of the last tick.
    pub now: u64,
    /// Wids already reported closed; later events naming them are stale.
    pub closed_wids: Vec<u64>,
}

impl Scheduler {
    /// The managed windows, in insertion order.
    pub open spec fn windows(self) -> Seq<ManagedWindow> {
        self.registry.windows@
    }

    /// The grace period for a window governed by the given preset choice.
    pub open spec fn spec_delay(self, preset: Option<usize>) -> u64 {
        match preset {
            Some(i) => self.presets@[i as int].suspend_delay,
            None => self.settings.suspend_delay,
        }
    }

    /// The subtree pattern for a window governed by the given preset
    /// choice; windows on the global defaults have none.
    pub open spec fn spec_pattern(self, preset: Option<usize>) -> Seq<char> {
        match preset {
            Some(i) => self.presets@[i as int].subtree_pattern@,
            None => Seq::empty(),
        }
    }

    /// The power policy admits suspension right now.
    pub open spec fn power_allows(self) -> bool {
        !self.settings.only_on_battery || self.on_battery
    }

    /// Well-formedness of window `i`: a frozen or thawing window holds the
    /// pids it touched and respects the power policy, any other window
    /// holds none, the preset index is in range, and the focused window is
    /// active.
    pub open spec fn win_wf(self, i: int) -> bool {
        let w = self.windows()[i];
        &&& ((w.state is Suspended || w.state is Thawing) ==> w.subtree@.len() > 0)
        &&& ((w.state is Active || w.state is PendingSuspend) ==> w.subtree@.len() == 0)
        &&& (match w.preset {
            Some(p) => p < self.presets@.len(),
            None => true,
        })
        &&& (self.focused == Some(w.wid) ==> w.state is Active)
        &&& ((w.state is Suspended || w.state is Thawing) ==> self.power_allows())
    }

    /// No pid stands in the subtrees of two distinct windows.
    pub open spec fn subtrees_disjoint(self) -> bool {
        forall|a: int, b: int, p: u32|
            #![trigger self.windows()[a].subtree@.contains(p), self.windows()[b].subtree@.contains(p)]
            0 <= a < b < self.windows().len() ==> !(self.windows()[a].subtree@.contains(p)
                && self.windows()[b].subtree@.contains(p))
    }

    /// The scheduler invariant: wids are unique, every window is
    /// well-formed, and subtrees never share a pid.
    pub open spec fn wf(self) -> bool {
        &&& self.registry.wids_unique()
        &&& (forall|i: int| 0 <= i < self.windows().len() ==> #[trigger] self.win_wf(i))
        &&& self.subtrees_disjoint()
    }

    /// A fresh scheduler: nothing managed, no focus, mains power assumed.
    pub fn new(settings: Settings, presets: Vec<Preset>) -> (s: Scheduler)
        ensures
            s.wf(),
            s.settings == settings,
            s.presets == presets,
            s.windows().len() == 0,
            s.focused is None,
            s.pending_focus is None,
            !s.on_battery,
            s.now == 0,
            s.closed_wids@.len() == 0,
    {
        Scheduler {
            settings,
            presets,
            registry: Registry::new(),
            focused: None,
            pending_focus: None,
            on_battery: false,
            now: 0,
            closed_wids: Vec::new(),
        }
    }

    /// The grace period for the given preset choice.
    fn delay_for(&self, preset: Option<usize>) -> (r: u64)
        requires
            match preset {
                Some(i) => i < self.presets@.len(),
                None => true,
            },
        ensures
            r == self.spec_delay(preset),
    {
        match preset {
            Some(i) => self.presets[i].suspend_delay,
            None => self.settings.suspend_delay,
        }
    }
}

/// The window record created for an open event: class, title and root pid
/// as reported, the first matching preset, an empty subtree, and an active
/// or pending state according to focus.
pub open spec fn opened_window_ok(
    o: Scheduler,
    n: Scheduler,
    w: ManagedWindow,
    wid: u64,
    class: Seq<char>,
    title: Seq<char>,
    root_pid: u32,
    now: u64,
) -> bool {
    &&& w.wid == wid
    &&& w.class@ == class
    &&& w.title@ == title
    &&& w.root_pid == root_pid
    &&& first_match_is(o.presets@, class, w.preset)
    &&& w.subtree@.len() == 0
    &&& w.last_transition_at == now
    &&& w.state == (if n.focused == Some(wid) {
        WindowState::Active
    } else {
        (WindowState::PendingSuspend { deadline: spec_sat_add(now, o.spec_delay(w.preset)) })
    })
}

/// Some window of `s` carries the identifier `wid`.
pub open spec fn has_wid(s: Seq<ManagedWindow>, wid: u64) -> bool {
    exists|i: int| 0 <= i < s.len() && s[i].wid == wid
}

/// Inserting `w` for `wid`: appended when the wid is new, replacing the
/// existing entry otherwise.
pub open spec fn registry_upsert(
    os: Seq<ManagedWindow>,
    ns: Seq<ManagedWindow>,
    wid: u64,
    w: ManagedWindow,
) -> bool {
    if has_wid(os, wid) {
        exists|i: int| 0 <= i < os.len() && os[i].wid == wid && ns == os.update(i, w)
    } else {
        ns == os.push(w)
    }
}

impl Scheduler {
    /// A window opened: record it, match its preset, and consume a
    /// buffered early focus event naming it.  A wid that was already
    /// reported closed is a stale protocol error and is ignored.  If the
    /// compositor re-announces a managed wid, the fresh record replaces
    /// the stale one, resuming its subtree first if it was frozen.
    pub fn handle_opened(
        &mut self,
        wid: u64,
        class: String,
        title: String,
        root_pid: u32,
        now: u64,
    ) -> (acts: Vec<Action>)
        requires
            old(self).wf(),
        ensures
            final(self).wf(),
            final(self).settings == old(self).settings,
            final(self).presets == old(self).presets,
            final(self).on_battery == old(self).on_battery,
            final(self).now == old(self).now,
            final(self).closed_wids == old(self).closed_wids,
            !old(self).settings.send_signals ==> no_signal_actions(acts@),
            acts@.len() <= 1,
            (exists|i: int|
                0 <= i < old(self).windows().len() && (#[trigger] old(self).windows()[i]).wid
                    == wid && old(self).windows()[i].state is Suspended) && old(
                self,
            ).settings.send_signals && !old(self).closed_wids@.contains(wid) ==> acts@.len() == 1,
            acts@.len() == 1 ==> old(self).settings.send_signals && exists|i: int|
                0 <= i < old(self).windows().len() && (#[trigger] old(self).windows()[i]).wid
                    == wid && old(self).windows()[i].state is Suspended && action_thaws(
                    acts@[0],
                    old(self).windows()[i].subtree@,
                ),
            old(self).closed_wids@.contains(wid) ==> *final(self) == *old(self) && acts@.len()
                == 0,
            !old(self).closed_wids@.contains(wid) ==> {
                &&& final(self).focused == (if old(self).pending_focus == Some(wid) {
                    Some(wid)
                } else {
                    old(self).focused
                })
                &&& final(self).pending_focus == (if old(self).pending_focus == Some(wid) {
                    None::<u64>
                } else {
                    old(self).pending_focus
                })
                &&& exists|w: ManagedWindow|
                    #[trigger] opened_window_ok(
                        *old(self),
                        *final(self),
                        w,
                        wid,
                        class@,
                        title@,
                        root_pid,
                        now,
                    ) && registry_upsert(old(self).windows(), final(self).windows(), wid, w)
            },
    {
        let ghost gclass = class@;
        let ghost gtitle = title@;
        if contains_u64(&self.closed_wids, wid) {
            return Vec::new();
        }
        let mut acts: Vec<Action> = Vec::new();
        if self.pending_focus == Some(wid) {
            self.pending_focus = None;
            self.focused = Some(wid);
        }
        let preset = match_preset(&self.presets, class.as_str());
        let state = if self.focused == Some(wid) {
            WindowState::Active
        } else {
            let d = self.delay_for(preset);
            WindowState::PendingSuspend { deadline: sat_add(now, d) }
        };
        let w = ManagedWindow {
            wid,
            class,
            title,
            root_pid,
            preset,
            subtree: Vec::new(),
            state,
            last_transition_at: now,
        };
        let ghost gw = w;
        proof {
            assert(gw.class@ == gclass);
            assert(gw.title@ == gtitle);
        }
        match self.registry.find(wid) {
            Some(i) => {
                let was_suspended = match self.registry.windows[i].state {
                    WindowState::Suspended { .. } => true,
                    _ => false,
                };
                if was_suspended && self.settings.send_signals {
                    let pids = clone_pids(&self.registry.windows[i].subtree);
                    acts.push(Action::Thaw { pids });
                }
                self.registry.windows.set(i, w);
                proof {
                    assert(self.windows() == old(self).windows().update(i as int, gw));
                    assert(old(self).windows()[i as int].wid == wid);
                    assert(registry_upsert(old(self).windows(), self.windows(), wid, gw));
                    assert forall|k: int| 0 <= k < self.windows().len() implies #[trigger] self
                        .win_wf(k) by {
                        assert(old(self).win_wf(k));
                    };
                    assert(opened_window_ok(
                        *old(self),
                        *self,
                        gw,
                        wid,
                        gclass,
                        gtitle,
                        root_pid,
                        now,
                    ));
                }
            },
            None => {
                self.registry.windows.push(w);
                proof {
                    assert(self.windows() == old(self).windows().push(gw));
                    assert(!has_wid(old(self).windows(), wid));
                    assert(registry_upsert(old(self).windows(), self.windows(), wid, gw));
                    assert forall|k: int| 0 <= k < self.windows().len() implies #[trigger] self
                        .win_wf(k) by {
                        if k < self.windows().len() - 1 {
                            assert(old(self).win_wf(k));
                        }
                    };
                    assert(opened_window_ok(
                        *old(self),
                        *self,
                        gw,
                        wid,
                        gclass,
                        gtitle,
                        root_pid,
                        now,
                    ));
                }
            },
        }
        acts
    }
}


/// How many of the first `i` windows are suspended: the rank of each
/// suspended window among the resume actions a wake-everything pass emits.
pub open spec fn suspended_count(ws: Seq<ManagedWindow>, i: int) -> int
    decreases i,
{
    if i <= 0 {
        0
    } else {
        suspended_count(ws, i - 1) + if ws[i - 1].state is Suspended {
            1int
        } else {
            0int
        }
    }
}

/// Action `a` resumes the stored subtree of some currently suspended
/// window.
pub open spec fn wake_thaw_act(o: Scheduler, a: Action) -> bool {
    exists|i: int|
        0 <= i < o.windows().len() && (#[trigger] o.windows()[i]).state is Suspended
            && action_thaws(a, o.windows()[i].subtree@)
}

/// The suspended-window count never decreases along the registry.
proof fn lemma_suspended_count_mono(ws: Seq<ManagedWindow>, a: int, b: int)
    requires
        a <= b,
    ensures
        suspended_count(ws, a) <= suspended_count(ws, b),
    decreases b - a,
{
    if a < b {
        lemma_suspended_count_mono(ws, a, b - 1);
    }
}

/// Window `nw` is `ow` woken at `now`: active, holding no pids, otherwise
/// unchanged.
pub open spec fn woken_window(ow: ManagedWindow, nw: ManagedWindow, now: u64) -> bool {
    &&& nw == (ManagedWindow {
        state: WindowState::Active,
        subtree: nw.subtree,
        last_transition_at: now,
        ..ow
    })
    &&& nw.subtree@.len() == 0
}

/// Window `i` after the focus moved to `wid` at `now`: the window gaining
/// focus wakes, the window losing focus starts its grace period, every
/// other window is untouched.
pub open spec fn focus_window_post(
    o: Scheduler,
    n: Scheduler,
    wid: Option<u64>,
    now: u64,
    i: int,
) -> bool {
    let ow = o.windows()[i];
    let nw = n.windows()[i];
    if wid == Some(ow.wid) {
        if ow.state is Active {
            nw == ow
        } else {
            woken_window(ow, nw, now)
        }
    } else if o.focused == Some(ow.wid) && o.focused != wid && ow.state is Active {
        nw == (ManagedWindow {
            state: (WindowState::PendingSuspend {
                deadline: spec_sat_add(now, o.spec_delay(ow.preset)),
            }),
            last_transition_at: now,
            ..ow
        })
    } else {
        nw == ow
    }
}

/// Window `i` after the power source flipped to `on_battery` at `now`:
/// on a switch to mains with the battery-only policy every non-active
/// window wakes; on a switch to battery with auto-suspend every unfocused
/// running window is scheduled immediately.
pub open spec fn power_window_post(
    o: Scheduler,
    n: Scheduler,
    on_battery: bool,
    now: u64,
    i: int,
) -> bool {
    let ow = o.windows()[i];
    let nw = n.windows()[i];
    if !on_battery && o.settings.only_on_battery {
        if ow.state is Active {
            nw == ow
        } else {
            woken_window(ow, nw, now)
        }
    } else if on_battery && o.settings.auto_suspend_on_battery && o.focused != Some(ow.wid) && (
    ow.state is Active || ow.state is PendingSuspend) {
        nw == (ManagedWindow {
            state: (WindowState::PendingSuspend { deadline: now }),
            last_transition_at: now,
            ..ow
        })
    } else {
        nw == ow
    }
}

impl Scheduler {
    /// The focused window changed.  The window gaining focus is woken (its
    /// subtree resumed if it was frozen), the window losing focus starts
    /// its grace period, and a focus naming an unmanaged window is
    /// buffered for its open event.  A wid already reported closed is
    /// stale and ignored.
    pub fn handle_focus(&mut self, wid: Option<u64>, now: u64) -> (acts: Vec<Action>)
        requires
            old(self).wf(),
        ensures
            final(self).wf(),
            final(self).settings == old(self).settings,
            final(self).presets == old(self).presets,
            final(self).on_battery == old(self).on_battery,
            final(self).now == old(self).now,
            final(self).closed_wids == old(self).closed_wids,
            !old(self).settings.send_signals ==> no_signal_actions(acts@),
            (match wid {
                Some(w) => old(self).closed_wids@.contains(w),
                None => false,
            }) ==> *final(self) == *old(self) && acts@.len() == 0,
            !(match wid {
                Some(w) => old(self).closed_wids@.contains(w),
                None => false,
            }) ==> {
                &&& final(self).focused == wid
                &&& final(self).pending_focus == (match wid {
                    Some(w) => if has_wid(old(self).windows(), w) {
                        None::<u64>
                    } else {
                        Some(w)
                    },
                    None => None::<u64>,
                })
                &&& final(self).windows().len() == old(self).windows().len()
                &&& forall|i: int|
                    0 <= i < old(self).windows().len() ==> #[trigger] focus_window_post(
                        *old(self),
                        *final(self),
                        wid,
                        now,
                        i,
                    )
                &&& (forall|i: int|
                    0 <= i < old(self).windows().len() && wid == Some(
                        old(self).windows()[i].wid,
                    ) && old(self).windows()[i].state is Suspended && old(
                        self,
                    ).settings.send_signals ==> exists|k: int|
                        0 <= k < acts@.len() && action_thaws(
                            #[trigger] acts@[k],
                            old(self).windows()[i].subtree@,
                        ))
                &&& acts@.len() <= 1
                &&& (acts@.len() == 1 ==> old(self).settings.send_signals && exists|i: int|
                    0 <= i < old(self).windows().len() && wid == Some(
                        (#[trigger] old(self).windows()[i]).wid,
                    ) && old(self).windows()[i].state is Suspended && action_thaws(
                        acts@[0],
                        old(self).windows()[i].subtree@,
                    ))
            },
    {
        let stale = match wid {
            Some(w) => contains_u64(&self.closed_wids, w),
            None => false,
        };
        if stale {
            return Vec::new();
        }
        let mut acts: Vec<Action> = Vec::new();
        let prev = self.focused;
        let ghost mut found: int = -1;
        self.focused = wid;
        match wid {
            Some(w) => {
                match self.registry.find(w) {
                    Some(i) => {
                        proof {
                            found = i as int;
                        }
                        self.pending_focus = None;
                        let st = self.registry.windows[i].state;
                        let is_active = match st {
                            WindowState::Active => true,
                            _ => false,
                        };
                        if !is_active {
                            let frozen = match st {
                                WindowState::Suspended { .. } => true,
                                _ => false,
                            };
                            if frozen && self.settings.send_signals {
                                let pids = clone_pids(&self.registry.windows[i].subtree);
                                acts.push(Action::Thaw { pids });
                                proof {
                                    assert(action_thaws(
                                        acts@[0],
                                        old(self).windows()[i as int].subtree@,
                                    ));
                                }
                            }
                            self.registry.apply_transition(i, WindowState::Active, Vec::new(), now);
                        }
                    },
                    None => {
                        self.pending_focus = Some(w);
                    },
                }
            },
            None => {
                self.pending_focus = None;
            },
        }
        match prev {
            Some(v) => {
                if wid != prev {
                    match self.registry.find(v) {
                        Some(j) => {
                            let st = self.registry.windows[j].state;
                            let is_active = match st {
                                WindowState::Active => true,
                                _ => false,
                            };
                            if is_active {
                                proof {
                                    assert(old(self).win_wf(j as int));
                                }
                                let d = self.delay_for(self.registry.windows[j].preset);
                                self.registry.set_state(
                                    j,
                                    WindowState::PendingSuspend { deadline: sat_add(now, d) },
                                    now,
                                );
                            }
                        },
                        None => {},
                    }
                }
            },
            None => {},
        }
        proof {
            assert forall|k: int| 0 <= k < self.windows().len() implies #[trigger] self.win_wf(
                k,
            ) by {
                assert(old(self).win_wf(k));
            };
            assert forall|i: int| 0 <= i < old(self).windows().len() implies
                #[trigger] focus_window_post(*old(self), *self, wid, now, i) by {
                assert(old(self).win_wf(i));
            };
            assert forall|i2: int|
                0 <= i2 < old(self).windows().len() && wid == Some(
                    old(self).windows()[i2].wid,
                ) && old(self).windows()[i2].state is Suspended && old(
                    self,
                ).settings.send_signals implies exists|k: int|
                0 <= k < acts@.len() && action_thaws(
                    #[trigger] acts@[k],
                    old(self).windows()[i2].subtree@,
                ) by {
                assert(0 <= found < old(self).windows().len());
                if i2 != found {
                    assert(old(self).windows()[i2].wid != old(self).windows()[found].wid);
                }
                assert(action_thaws(acts@[0], old(self).windows()[i2].subtree@));
            };
        }
        acts
    }

    /// A window closed: its entry leaves the registry, its subtree is
    /// resumed if it was frozen, and the wid is remembered so that later
    /// events naming it are recognised as stale.
    pub fn handle_closed(&mut self, wid: u64, now: u64) -> (acts: Vec<Action>)
        requires
            old(self).wf(),
        ensures
            final(self).wf(),
            final(self).settings == old(self).settings,
            final(self).presets == old(self).presets,
            final(self).on_battery == old(self).on_battery,
            final(self).now == old(self).now,
            final(self).closed_wids@ == old(self).closed_wids@.push(wid),
            final(self).focused == (if old(self).focused == Some(wid) {
                None::<u64>
            } else {
                old(self).focused
            }),
            final(self).pending_focus == (if old(self).pending_focus == Some(wid) {
                None::<u64>
            } else {
                old(self).pending_focus
            }),
            !old(self).settings.send_signals ==> acts@.len() == 0,
            acts@.len() <= 1,
            !has_wid(old(self).windows(), wid) ==> final(self).windows() == old(self).windows()
                && acts@.len() == 0,
            has_wid(old(self).windows(), wid) ==> exists|i: int|
                {
                    &&& 0 <= i < old(self).windows().len()
                    &&& (#[trigger] old(self).windows()[i]).wid == wid
                    &&& final(self).windows() == old(self).windows().remove(i)
                    &&& (old(self).windows()[i].state is Suspended && old(
                        self,
                    ).settings.send_signals ==> acts@.len() == 1 && action_thaws(
                        acts@[0],
                        old(self).windows()[i].subtree@,
                    ))
                    &&& (!(old(self).windows()[i].state is Suspended) ==> acts@.len() == 0)
                },
    {
        let mut acts: Vec<Action> = Vec::new();
        self.closed_wids.push(wid);
        if self.focused == Some(wid) {
            self.focused = None;
        }
        if self.pending_focus == Some(wid) {
            self.pending_focus = None;
        }
        match self.registry.find(wid) {
            Some(i) => {
                let frozen = match self.registry.windows[i].state {
                    WindowState::Suspended { .. } => true,
                    _ => false,
                };
                if frozen && self.settings.send_signals {
                    let pids = clone_pids(&self.registry.windows[i].subtree);
                    acts.push(Action::Thaw { pids });
                }
                self.registry.windows.remove(i);
                proof {
                    assert(old(self).windows()[i as int].wid == wid);
                    assert(has_wid(old(self).windows(), wid));
                    assert forall|k: int| 0 <= k < self.windows().len() implies #[trigger] self
                        .win_wf(k) by {
                        if k < i {
                            assert(old(self).win_wf(k));
                            assert(self.windows()[k] == old(self).windows()[k]);
                        } else {
                            assert(old(self).win_wf(k + 1));
                            assert(self.windows()[k] == old(self).windows()[k + 1]);
                        }
                    };
                    assert forall|a: int, b: int, p: u32|
                        0 <= a < b < self.windows().len() && (#[trigger] self.windows()[a].subtree@.contains(p))
                        implies !(#[trigger] self.windows()[b].subtree@.contains(p)) by {
                        let oa: int = if a < i { a } else { a + 1 };
                        let ob: int = if b < i { b } else { b + 1 };
                        assert(self.windows()[a] == old(self).windows()[oa]);
                        assert(self.windows()[b] == old(self).windows()[ob]);
                    };
                    assert forall|a: int, b: int|
                        0 <= a < b < self.windows().len() implies self.windows()[a].wid != self
                        .windows()[b].wid by {
                        let oa: int = if a < i { a } else { a + 1 };
                        let ob: int = if b < i { b } else { b + 1 };
                        assert(self.windows()[a] == old(self).windows()[oa]);
                        assert(self.windows()[b] == old(self).windows()[ob]);
                    };
                }
            },
            None => {
                proof {
                    assert forall|k: int| 0 <= k < self.windows().len() implies #[trigger] self
                        .win_wf(k) by {
                        assert(old(self).win_wf(k));
                    };
                }
            },
        }
        acts
    }

    /// The power source flipped.  On a switch to mains with the
    /// battery-only policy every suspended, thawing or pending window
    /// wakes (frozen subtrees are resumed); on a switch to battery with
    /// auto-suspend every unfocused running window is scheduled for
    /// immediate suspension.  The frequency cap, when configured, is
    /// applied or lifted exactly once per flip.
    #[verifier::rlimit(60)]
    pub fn handle_power(&mut self, on_battery: bool, now: u64) -> (acts: Vec<Action>)
        requires
            old(self).wf(),
        ensures
            final(self).wf(),
            final(self).settings == old(self).settings,
            final(self).presets == old(self).presets,
            final(self).now == old(self).now,
            final(self).closed_wids == old(self).closed_wids,
            final(self).focused == old(self).focused,
            final(self).pending_focus == old(self).pending_focus,
            !old(self).settings.send_signals ==> no_signal_actions(acts@),
            on_battery == old(self).on_battery ==> *final(self) == *old(self) && acts@.len() == 0,
            on_battery != old(self).on_battery ==> {
                &&& final(self).on_battery == on_battery
                &&& final(self).windows().len() == old(self).windows().len()
                &&& forall|i: int|
                    0 <= i < old(self).windows().len() ==> #[trigger] power_window_post(
                        *old(self),
                        *final(self),
                        on_battery,
                        now,
                        i,
                    )
                &&& (old(self).settings.downclock_on_battery > 0 ==> acts@.len() >= 1 && acts@[0]
                    == (if on_battery {
                    (Action::CapFrequency { mhz: old(self).settings.downclock_on_battery })
                } else {
                    Action::UncapFrequency
                }))
                &&& (old(self).settings.send_signals ==> forall|i: int|
                    0 <= i < old(self).windows().len() && (#[trigger] old(
                        self,
                    ).windows()[i]).state is Suspended && !on_battery && old(
                        self,
                    ).settings.only_on_battery ==> exists|k: int|
                        0 <= k < acts@.len() && action_thaws(
                            #[trigger] acts@[k],
                            old(self).windows()[i].subtree@,
                        ))
                &&& {
                    let pre: int = if old(self).settings.downclock_on_battery > 0 {
                        1int
                    } else {
                        0int
                    };
                    if !on_battery && old(self).settings.only_on_battery && old(
                        self,
                    ).settings.send_signals {
                        &&& acts@.len() == pre + suspended_count(
                            old(self).windows(),
                            old(self).windows().len() as int,
                        )
                        &&& (forall|k: int|
                            pre <= k < acts@.len() ==> #[trigger] wake_thaw_act(
                                *old(self),
                                acts@[k],
                            ))
                    } else {
                        acts@.len() == pre
                    }
                }
            },
    {
        if on_battery == self.on_battery {
            return Vec::new();
        }
        let mut acts: Vec<Action> = Vec::new();
        self.on_battery = on_battery;
        if self.settings.downclock_on_battery > 0 {
            if on_battery {
                acts.push(Action::CapFrequency { mhz: self.settings.downclock_on_battery });
            } else {
                acts.push(Action::UncapFrequency);
            }
        }
        let ghost acts0 = acts@;
        proof {
            if old(self).settings.downclock_on_battery > 0 {
                assert(acts0.len() >= 1);
                assert(acts0[0] == (if on_battery {
                    (Action::CapFrequency { mhz: old(self).settings.downclock_on_battery })
                } else {
                    Action::UncapFrequency
                }));
            }
        }
        if !on_battery && self.settings.only_on_battery {
            let mut m: usize = 0;
            while m < self.registry.windows.len()
                invariant
                    m <= self.windows().len(),
                    self.settings == old(self).settings,
                    self.presets == old(self).presets,
                    self.now == old(self).now,
                    self.closed_wids == old(self).closed_wids,
                    self.focused == old(self).focused,
                    self.pending_focus == old(self).pending_focus,
                    self.on_battery == on_battery,
                    !on_battery && self.settings.only_on_battery,
                    self.registry.windows@.len() == old(self).windows().len(),
                    old(self).wf(),
                    acts@.len() >= acts0.len(),
                    forall|k: int| 0 <= k < acts0.len() ==> acts@[k] == acts0[k],
                    !self.settings.send_signals ==> no_signal_actions(acts@),
                    self.settings.send_signals ==> acts@.len() == acts0.len() + suspended_count(
                        old(self).windows(),
                        m as int,
                    ),
                    forall|k: int|
                        acts0.len() <= k < acts@.len() ==> #[trigger] wake_thaw_act(
                            *old(self),
                            acts@[k],
                        ),
                    !self.settings.send_signals ==> acts@ == acts0,
                    forall|i: int|
                        0 <= i < m ==> #[trigger] power_window_post(
                            *old(self),
                            *self,
                            on_battery,
                            now,
                            i,
                        ),
                    forall|i: int|
                        m <= i < self.windows().len() ==> self.windows()[i] == old(
                            self,
                        ).windows()[i],
                    self.settings.send_signals ==> forall|i: int|
                        0 <= i < m && (#[trigger] old(self).windows()[i]).state is Suspended
                            ==> exists|k: int|
                            0 <= k < acts@.len() && action_thaws(
                                #[trigger] acts@[k],
                                old(self).windows()[i].subtree@,
                            ),
                decreases self.windows().len() - m,
            {
                let ghost prev = *self;
                let ghost acts_prev = acts@;
                let st = self.registry.windows[m].state;
                let is_active = match st {
                    WindowState::Active => true,
                    _ => false,
                };
                if !is_active {
                    let frozen = match st {
                        WindowState::Suspended { .. } => true,
                        _ => false,
                    };
                    if frozen && self.settings.send_signals {
                        let pids = clone_pids(&self.registry.windows[m].subtree);
                        acts.push(Action::Thaw { pids });
                        proof {
                            assert(action_thaws(
                                acts@[acts_prev.len() as int],
                                self.windows()[m as int].subtree@,
                            ));
                        }
                    }
                    self.registry.apply_transition(m, WindowState::Active, Vec::new(), now);
                }
                proof {
                    assert forall|k2: int| 0 <= k2 < acts_prev.len() implies acts@[k2]
                        == acts_prev[k2] by {}
                    assert forall|i: int| 0 <= i < m + 1 implies #[trigger] power_window_post(
                        *old(self),
                        *self,
                        on_battery,
                        now,
                        i,
                    ) by {
                        if i < m {
                            assert(power_window_post(*old(self), prev, on_battery, now, i));
                            assert(self.windows()[i] == prev.windows()[i]);
                        } else {
                            assert(prev.windows()[i] == old(self).windows()[i]);
                        }
                    };
                    assert forall|k: int|
                        acts0.len() <= k < acts@.len() implies #[trigger] wake_thaw_act(
                            *old(self),
                            acts@[k],
                        ) by {
                        if k < acts_prev.len() {
                            assert(wake_thaw_act(*old(self), acts_prev[k]));
                            assert(acts@[k] == acts_prev[k]);
                        } else {
                            assert(prev.windows()[m as int] == old(self).windows()[m as int]);
                            assert(action_thaws(
                                acts@[acts_prev.len() as int],
                                old(self).windows()[m as int].subtree@,
                            ));
                        }
                    };
                    if self.settings.send_signals {
                        assert forall|i: int|
                            0 <= i < m + 1 && (#[trigger] old(self).windows()[i]).state
                                is Suspended implies exists|k: int|
                            0 <= k < acts@.len() && action_thaws(
                                #[trigger] acts@[k],
                                old(self).windows()[i].subtree@,
                            ) by {
                            if i < m {
                                let k = choose|k: int|
                                    0 <= k < acts_prev.len() && action_thaws(
                                        #[trigger] acts_prev[k],
                                        old(self).windows()[i].subtree@,
                                    );
                                assert(action_thaws(acts@[k], old(self).windows()[i].subtree@));
                            } else {
                                assert(action_thaws(
                                    acts@[acts_prev.len() as int],
                                    old(self).windows()[i].subtree@,
                                ));
                            }
                        };
                    }
                }
                m = m + 1;
            }
            proof {
                assert forall|k: int| 0 <= k < self.windows().len() implies #[trigger] self
                    .win_wf(k) by {
                    assert(old(self).win_wf(k));
                    assert(power_window_post(*old(self), *self, on_battery, now, k));
                };
                assert forall|a: int, b: int, p: u32|
                    0 <= a < b < self.windows().len() && (#[trigger] self.windows()[a].subtree@.contains(p))
                    implies !(#[trigger] self.windows()[b].subtree@.contains(p)) by {
                    assert(power_window_post(*old(self), *self, on_battery, now, a));
                    assert(power_window_post(*old(self), *self, on_battery, now, b));
                };
                assert forall|a: int, b: int|
                    0 <= a < b < self.windows().len() implies self.windows()[a].wid != self
                    .windows()[b].wid by {
                    assert(power_window_post(*old(self), *self, on_battery, now, a));
                    assert(power_window_post(*old(self), *self, on_battery, now, b));
                };
            }
        } else if on_battery && self.settings.auto_suspend_on_battery {
            let mut m: usize = 0;
            while m < self.registry.windows.len()
                invariant
                    m <= self.windows().len(),
                    self.settings == old(self).settings,
                    self.presets == old(self).presets,
                    self.now == old(self).now,
                    self.closed_wids == old(self).closed_wids,
                    self.focused == old(self).focused,
                    self.pending_focus == old(self).pending_focus,
                    self.on_battery == on_battery,
                    on_battery && self.settings.auto_suspend_on_battery,
                    self.registry.windows@.len() == old(self).windows().len(),
                    old(self).wf(),
                    acts@ == acts0,
                    forall|i: int|
                        0 <= i < m ==> #[trigger] power_window_post(
                            *old(self),
                            *self,
                            on_battery,
                            now,
                            i,
                        ),
                    forall|i: int|
                        m <= i < self.windows().len() ==> self.windows()[i] == old(
                            self,
                        ).windows()[i],
                decreases self.windows().len() - m,
            {
                let ghost prev = *self;
                let w = self.registry.windows[m].wid;
                let st = self.registry.windows[m].state;
                let running = match st {
                    WindowState::Active => true,
                    WindowState::PendingSuspend { .. } => true,
                    _ => false,
                };
                if running && self.focused != Some(w) {
                    self.registry.set_state(
                        m,
                        WindowState::PendingSuspend { deadline: now },
                        now,
                    );
                }
                proof {
                    assert forall|i: int| 0 <= i < m + 1 implies #[trigger] power_window_post(
                        *old(self),
                        *self,
                        on_battery,
                        now,
                        i,
                    ) by {
                        if i < m {
                            assert(power_window_post(*old(self), prev, on_battery, now, i));
                            assert(self.windows()[i] == prev.windows()[i]);
                        } else {
                            assert(prev.windows()[i] == old(self).windows()[i]);
                        }
                    };
                }
                m = m + 1;
            }
            proof {
                assert forall|k: int| 0 <= k < self.windows().len() implies #[trigger] self
                    .win_wf(k) by {
                    assert(old(self).win_wf(k));
                    assert(power_window_post(*old(self), *self, on_battery, now, k));
                };
                assert forall|a: int, b: int, p: u32|
                    0 <= a < b < self.windows().len() && (#[trigger] self.windows()[a].subtree@.contains(p))
                    implies !(#[trigger] self.windows()[b].subtree@.contains(p)) by {
                    assert(power_window_post(*old(self), *self, on_battery, now, a));
                    assert(power_window_post(*old(self), *self, on_battery, now, b));
                };
                assert forall|a: int, b: int|
                    0 <= a < b < self.windows().len() implies self.windows()[a].wid != self
                    .windows()[b].wid by {
                    assert(power_window_post(*old(self), *self, on_battery, now, a));
                    assert(power_window_post(*old(self), *self, on_battery, now, b));
                };
            }
        } else {
            proof {
                assert forall|i: int| 0 <= i < old(self).windows().len() implies
                    #[trigger] power_window_post(*old(self), *self, on_battery, now, i) by {};
                assert forall|k: int| 0 <= k < self.windows().len() implies #[trigger] self
                    .win_wf(k) by {
                    assert(old(self).win_wf(k));
                };
                assert forall|a: int, b: int, p: u32|
                    0 <= a < b < self.windows().len() && (#[trigger] self.windows()[a].subtree@.contains(p))
                    implies !(#[trigger] self.windows()[b].subtree@.contains(p)) by {
                    assert(old(self).windows()[a].subtree@.contains(p));
                };
                assert forall|a: int, b: int|
                    0 <= a < b < self.windows().len() implies self.windows()[a].wid != self
                    .windows()[b].wid by {};
            }
        }
        proof {
            if old(self).settings.downclock_on_battery > 0 {
                assert(acts@[0] == acts0[0]);
            }
        }
        acts
    }
}


/// Two pid lists share a pid.
pub open spec fn pid_overlap(a: Seq<u32>, b: Seq<u32>) -> bool {
    exists|p: u32| a.contains(p) && b.contains(p)
}

/// Whether `x` occurs in `v`.
fn contains_u32(v: &Vec<u32>, x: u32) -> (r: bool)
    ensures
        r == v@.contains(x),
{
    let mut i: usize = 0;
    while i < v.len()
        invariant
            i <= v@.len(),
            forall|j: int| 0 <= j < i ==> v@[j] != x,
        decreases v@.len() - i,
    {
        if v[i] == x {
            return true;
        }
        i = i + 1;
    }
    false
}

/// Whether the two pid lists share a pid.
fn pids_intersect(a: &Vec<u32>, b: &Vec<u32>) -> (r: bool)
    ensures
        r == pid_overlap(a@, b@),
{
    let mut i: usize = 0;
    while i < a.len()
        invariant
            i <= a@.len(),
            forall|j: int| 0 <= j < i ==> !b@.contains(a@[j]),
        decreases a@.len() - i,
    {
        if contains_u32(b, a[i]) {
            proof {
                assert(a@.contains(a@[i as int]));
            }
            return true;
        }
        i = i + 1;
    }
    proof {
        if pid_overlap(a@, b@) {
            let p = choose|p: u32| a@.contains(p) && b@.contains(p);
            let j = choose|j: int| 0 <= j < a@.len() && a@[j] == p;
            assert(!b@.contains(a@[j]));
        }
    }
    false
}

/// `a1` extends `a0`, and when signals are disabled nothing appended stops
/// or resumes a process.
pub open spec fn acts_extended(a0: Seq<Action>, a1: Seq<Action>, send: bool) -> bool {
    &&& a1.len() >= a0.len()
    &&& (forall|k: int| 0 <= k < a0.len() ==> a1[k] == a0[k])
    &&& (!send ==> forall|k: int|
        a0.len() <= k < a1.len() ==> !((#[trigger] a1[k]) is Freeze) && !(a1[k] is Thaw))
}

/// Action `a` stops exactly the fresh suspend target of window `i`.
pub open spec fn freeze_act_of(o: Scheduler, table: Seq<ProcRecord>, i: int, a: Action) -> bool {
    match a {
        Action::Freeze { pids } => forall|p: u32|
            #[trigger] pids@.contains(p) == window_targets(o, table, i, p),
        _ => false,
    }
}

/// An action window `i`'s freeze may emit: the stop of its fresh target,
/// or the resume of a suspended window whose stale subtree the fresh
/// discovery claims.
pub open spec fn freeze_emit_ok(o: Scheduler, table: Seq<ProcRecord>, i: int, a: Action) -> bool {
    ||| (exists|j: int|
        0 <= j < o.windows().len() && j != i && (#[trigger] o.windows()[j]).state is Suspended
            && action_thaws(a, o.windows()[j].subtree@) && (exists|p: u32|
            o.windows()[j].subtree@.contains(p) && window_targets(o, table, i, p)))
    ||| freeze_act_of(o, table, i, a)
}

/// An action a tick may emit: the stop of an overdue window's freshly
/// discovered target, or the resume of a suspended window's stored
/// subtree, or the resume of a target frozen and reclaimed within the
/// same tick.  Never a frequency-cap request.
pub open spec fn tick_act_ok(o: Scheduler, table: Seq<ProcRecord>, now: u64, a: Action) -> bool {
    match a {
        Action::Freeze { pids: _ } => exists|i: int|
            #[trigger] due_freeze_candidate(o, now, i) && freeze_act_of(o, table, i, a),
        Action::Thaw { pids } => exists|i: int|
            #![trigger o.windows()[i]]
            0 <= i < o.windows().len() && ((o.windows()[i].state is Suspended && pids@
                == o.windows()[i].subtree@) || (due_freeze_candidate(o, now, i) && forall|p: u32|
                #[trigger] pids@.contains(p) == window_targets(o, table, i, p))),
        _ => false,
    }
}

/// Action `a` resumes the stored subtree of some suspended window other
/// than `keep` that shares a pid with the fresh discovery `pids`.
pub open spec fn evict_thaw_act(o: Scheduler, keep: int, pids: Seq<u32>, a: Action) -> bool {
    exists|j: int|
        0 <= j < o.windows().len() && j != keep && (#[trigger] o.windows()[j]).state
            is Suspended && pid_overlap(o.windows()[j].subtree@, pids) && action_thaws(
            a,
            o.windows()[j].subtree@,
        )
}

impl Scheduler {
    /// Clears the subtree of every window other than `keep` that shares a
    /// pid with `pids`: the later discovery wins, the earlier window is
    /// woken (its subtree resumed when it was frozen).
    fn evict_overlaps(&mut self, keep: usize, pids: &Vec<u32>, now: u64, acts: &mut Vec<Action>)
        requires
            old(self).wf(),
            keep < old(self).windows().len(),
        ensures
            final(self).wf(),
            final(self).settings == old(self).settings,
            final(self).presets == old(self).presets,
            final(self).on_battery == old(self).on_battery,
            final(self).now == old(self).now,
            final(self).closed_wids == old(self).closed_wids,
            final(self).focused == old(self).focused,
            final(self).pending_focus == old(self).pending_focus,
            final(self).windows().len() == old(self).windows().len(),
            final(self).windows()[keep as int] == old(self).windows()[keep as int],
            forall|j: int|
                0 <= j < old(self).windows().len() && j != keep ==> (if pid_overlap(
                    (#[trigger] old(self).windows()[j]).subtree@,
                    pids@,
                ) {
                    woken_window(
                        old(self).windows()[j],
                        final(self).windows()[j],
                        now,
                    )
                } else {
                    final(self).windows()[j] == old(self).windows()[j]
                }),
            acts_extended(old(acts)@, final(acts)@, old(self).settings.send_signals),
            no_signal_actions(old(acts)@) ==> (old(self).settings.send_signals || no_signal_actions(
                final(acts)@,
            )),
            old(self).settings.send_signals ==> forall|j: int|
                0 <= j < old(self).windows().len() && j != keep && (#[trigger] old(
                    self,
                ).windows()[j]).state is Suspended && pid_overlap(
                    old(self).windows()[j].subtree@,
                    pids@,
                ) ==> exists|k: int|
                    0 <= k < final(acts)@.len() && action_thaws(
                        #[trigger] final(acts)@[k],
                        old(self).windows()[j].subtree@,
                    ),
            forall|k: int|
                old(acts)@.len() <= k < final(acts)@.len() ==> #[trigger] evict_thaw_act(
                    *old(self),
                    keep as int,
                    pids@,
                    final(acts)@[k],
                ),
            !old(self).settings.send_signals ==> final(acts)@ == old(acts)@,
    {
        let ghost acts_base = acts@;
        let mut j: usize = 0;
        let n = self.registry.windows.len();
        while j < n
            invariant
                j <= n,
                n == old(self).windows().len(),
                keep < n,
                self.windows().len() == n,
                self.settings == old(self).settings,
                self.presets == old(self).presets,
                self.on_battery == old(self).on_battery,
                self.now == old(self).now,
                self.closed_wids == old(self).closed_wids,
                self.focused == old(self).focused,
                self.pending_focus == old(self).pending_focus,
                old(self).wf(),
                self.windows()[keep as int] == old(self).windows()[keep as int],
                forall|k: int|
                    j <= k < n ==> self.windows()[k] == old(self).windows()[k],
                forall|k: int|
                    0 <= k < j && k != keep ==> (if pid_overlap(
                        (#[trigger] old(self).windows()[k]).subtree@,
                        pids@,
                    ) {
                        woken_window(old(self).windows()[k], self.windows()[k], now)
                    } else {
                        self.windows()[k] == old(self).windows()[k]
                    }),
                acts_extended(old(acts)@, acts@, old(self).settings.send_signals),
                old(self).settings.send_signals ==> forall|k2: int|
                    0 <= k2 < j && k2 != keep && (#[trigger] old(self).windows()[k2]).state
                        is Suspended && pid_overlap(old(self).windows()[k2].subtree@, pids@)
                        ==> exists|k: int|
                        0 <= k < acts@.len() && action_thaws(
                            #[trigger] acts@[k],
                            old(self).windows()[k2].subtree@,
                        ),
                acts_base == old(acts)@,
                !old(self).settings.send_signals ==> acts@ == acts_base,
                forall|k: int|
                    acts_base.len() <= k < acts@.len() ==> #[trigger] evict_thaw_act(
                        *old(self),
                        keep as int,
                        pids@,
                        acts@[k],
                    ),
            decreases n - j,
        {
            let ghost prev = *self;
            let ghost acts_prev = acts@;
            if j != keep {
                if pids_intersect(&self.registry.windows[j].subtree, pids) {
                    let frozen = match self.registry.windows[j].state {
                        WindowState::Suspended { .. } => true,
                        _ => false,
                    };
                    if frozen && self.settings.send_signals {
                        let thaw = clone_pids(&self.registry.windows[j].subtree);
                        acts.push(Action::Thaw { pids: thaw });
                        proof {
                            assert(self.windows()[j as int] == old(self).windows()[j as int]);
                            assert(old(self).windows()[j as int].state is Suspended);
                            assert(pid_overlap(old(self).windows()[j as int].subtree@, pids@));
                            assert(action_thaws(
                                acts@[acts_prev.len() as int],
                                old(self).windows()[j as int].subtree@,
                            ));
                        }
                    }
                    self.registry.apply_transition(j, WindowState::Active, Vec::new(), now);
                }
            }
            proof {
                assert forall|k2c: int| 0 <= k2c < acts_prev.len() implies acts@[k2c]
                    == acts_prev[k2c] by {}
                assert forall|k: int|
                    acts_base.len() <= k < acts@.len() implies #[trigger] evict_thaw_act(
                        *old(self),
                        keep as int,
                        pids@,
                        acts@[k],
                    ) by {
                    if k < acts_prev.len() {
                        assert(evict_thaw_act(*old(self), keep as int, pids@, acts_prev[k]));
                        assert(acts@[k] == acts_prev[k]);
                    } else {
                        assert(k == acts_prev.len());
                        assert((j as int) < old(self).windows().len());
                        assert(j != keep);
                        assert(old(self).windows()[j as int].state is Suspended);
                        assert(pid_overlap(old(self).windows()[j as int].subtree@, pids@));
                        assert(action_thaws(acts@[k], old(self).windows()[j as int].subtree@));
                    }
                };
                if old(self).settings.send_signals {
                    assert forall|k2: int|
                        0 <= k2 < j + 1 && k2 != keep && (#[trigger] old(self).windows()[k2]).state
                            is Suspended && pid_overlap(old(self).windows()[k2].subtree@, pids@)
                            implies exists|k: int|
                            0 <= k < acts@.len() && action_thaws(
                                #[trigger] acts@[k],
                                old(self).windows()[k2].subtree@,
                            ) by {
                        if k2 < j {
                            let k = choose|k: int|
                                0 <= k < acts_prev.len() && action_thaws(
                                    #[trigger] acts_prev[k],
                                    old(self).windows()[k2].subtree@,
                                );
                            assert(action_thaws(acts@[k], old(self).windows()[k2].subtree@));
                        } else {
                            assert(action_thaws(
                                acts@[acts_prev.len() as int],
                                old(self).windows()[k2].subtree@,
                            ));
                        }
                    };
                }
                assert forall|k: int|
                    0 <= k < j + 1 && k != keep implies (if pid_overlap(
                        (#[trigger] old(self).windows()[k]).subtree@,
                        pids@,
                    ) {
                        woken_window(old(self).windows()[k], self.windows()[k], now)
                    } else {
                        self.windows()[k] == old(self).windows()[k]
                    }) by {
                    if k < j {
                        assert(self.windows()[k] == prev.windows()[k]);
                    }
                };
            }
            j = j + 1;
        }
        proof {
            assert forall|k: int| 0 <= k < self.windows().len() implies #[trigger] self.win_wf(
                k,
            ) by {
                assert(old(self).win_wf(k));
            };
            assert forall|a: int, b: int, p: u32|
                0 <= a < b < self.windows().len() && (#[trigger] self.windows()[a].subtree@.contains(p))
                implies !(#[trigger] self.windows()[b].subtree@.contains(p)) by {
                if a != keep {
                    assert((if pid_overlap(old(self).windows()[a].subtree@, pids@) {
                        woken_window(old(self).windows()[a], self.windows()[a], now)
                    } else {
                        self.windows()[a] == old(self).windows()[a]
                    }));
                }
                if b != keep {
                    assert((if pid_overlap(old(self).windows()[b].subtree@, pids@) {
                        woken_window(old(self).windows()[b], self.windows()[b], now)
                    } else {
                        self.windows()[b] == old(self).windows()[b]
                    }));
                }
                assert(old(self).windows()[a].subtree@.contains(p));
            };
            assert forall|a: int, b: int|
                0 <= a < b < self.windows().len() implies self.windows()[a].wid != self
                .windows()[b].wid by {
                if a != keep {
                    assert((if pid_overlap(old(self).windows()[a].subtree@, pids@) {
                        woken_window(old(self).windows()[a], self.windows()[a], now)
                    } else {
                        self.windows()[a] == old(self).windows()[a]
                    }));
                }
                if b != keep {
                    assert((if pid_overlap(old(self).windows()[b].subtree@, pids@) {
                        woken_window(old(self).windows()[b], self.windows()[b], now)
                    } else {
                        self.windows()[b] == old(self).windows()[b]
                    }));
                }
            };
        }
    }
}


/// Window `nw` is `ow` just frozen at `now`: suspended until the next
/// scheduled thaw, holding exactly the targets discovered in `table`.
pub open spec fn frozen_window(
    o: Scheduler,
    ow: ManagedWindow,
    nw: ManagedWindow,
    table: Seq<ProcRecord>,
    now: u64,
) -> bool {
    &&& nw == (ManagedWindow {
        state: (WindowState::Suspended { next_thaw: spec_sat_add(now, o.settings.resume_every) }),
        subtree: nw.subtree,
        last_transition_at: now,
        ..ow
    })
    &&& nw.subtree@.len() > 0
    &&& ow.root_pid != 0
    &&& (forall|p: u32|
        #[trigger] nw.subtree@.contains(p) <==> crate::process::is_target(
            table,
            ow.root_pid,
            o.spec_pattern(ow.preset),
            p,
        ))
    &&& (crate::process::is_target(table, ow.root_pid, o.spec_pattern(ow.preset), ow.root_pid)
        ==> nw.subtree@[0] == ow.root_pid)
}

/// Window `nw` is `ow` parked at `now`: still pending, its grace period
/// restarted because the power policy forbids suspension.
pub open spec fn parked_window(o: Scheduler, ow: ManagedWindow, nw: ManagedWindow, now: u64) -> bool {
    &&& nw == (ManagedWindow {
        state: (WindowState::PendingSuspend {
            deadline: spec_sat_add(now, o.spec_delay(ow.preset)),
        }),
        subtree: nw.subtree,
        last_transition_at: now,
        ..ow
    })
    &&& nw.subtree@.len() == 0
}

/// Window `i` is overdue for a freeze at this tick: its grace period or
/// thaw window has run out and the power policy allows suspension.  Only
/// such a window's discovery is run, so only such a window can claim pids
/// from others.
pub open spec fn due_freeze_candidate(o: Scheduler, now: u64, i: int) -> bool {
    &&& 0 <= i < o.windows().len()
    &&& (match o.windows()[i].state {
        WindowState::PendingSuspend { deadline } => now >= deadline,
        WindowState::Thawing { deadline } => now >= deadline,
        _ => false,
    })
    &&& o.power_allows()
}

/// Pid `p` belongs to the suspend target that a fresh discovery computes
/// for window `i` against this snapshot.
pub open spec fn window_targets(o: Scheduler, table: Seq<ProcRecord>, i: int, p: u32) -> bool {
    crate::process::is_target(
        table,
        o.windows()[i].root_pid,
        o.spec_pattern(o.windows()[i].preset),
        p,
    )
}

/// Another window's fresh discovery at this tick claims a pid that window
/// `i` holds or acquires: the only way `i` can be woken although it was
/// (or was about to be) frozen.
pub open spec fn eviction_risk(o: Scheduler, table: Seq<ProcRecord>, now: u64, i: int) -> bool {
    exists|i2: int, p: u32|
        i2 != i && #[trigger] due_freeze_candidate(o, now, i2) && #[trigger] window_targets(
            o,
            table,
            i2,
            p,
        ) && (window_targets(o, table, i, p) || o.windows()[i].subtree@.contains(p))
}

/// Window `i` after a tick at `now` against the snapshot `table`.  An
/// overdue pending window is frozen (or woken when there is nothing to
/// freeze, or parked when the power policy forbids it); an overdue
/// suspended window starts its thaw; an overdue thawing window is frozen
/// again against a fresh discovery.  A suspended or thawing window is
/// woken instead only when another window's fresh discovery claims a pid
/// of its subtree (the later discovery wins).
pub open spec fn tick_window_post(
    o: Scheduler,
    n: Scheduler,
    table: Seq<ProcRecord>,
    now: u64,
    i: int,
) -> bool {
    let ow = o.windows()[i];
    let nw = n.windows()[i];
    match ow.state {
        WindowState::Active => nw == ow,
        WindowState::PendingSuspend { deadline } => {
            if now < deadline {
                nw == ow
            } else if !o.power_allows() {
                parked_window(o, ow, nw, now)
            } else if ow.root_pid != 0 && (exists|p: u32| #[trigger] window_targets(
                o,
                table,
                i,
                p,
            )) {
                frozen_window(o, ow, nw, table, now) || (woken_window(ow, nw, now)
                    && eviction_risk(o, table, now, i))
            } else {
                woken_window(ow, nw, now)
            }
        },
        WindowState::Suspended { next_thaw } => {
            if now < next_thaw {
                nw == ow || (woken_window(ow, nw, now) && eviction_risk(o, table, now, i))
            } else {
                (nw == (ManagedWindow {
                    state: (WindowState::Thawing {
                        deadline: spec_sat_add(now, o.settings.resume_for),
                    }),
                    last_transition_at: now,
                    ..ow
                })) || (woken_window(ow, nw, now) && eviction_risk(o, table, now, i))
            }
        },
        WindowState::Thawing { deadline } => {
            if now < deadline {
                nw == ow || (woken_window(ow, nw, now) && eviction_risk(o, table, now, i))
            } else if !o.power_allows() {
                parked_window(o, ow, nw, now) || (woken_window(ow, nw, now) && eviction_risk(
                    o,
                    table,
                    now,
                    i,
                ))
            } else if ow.root_pid != 0 && (exists|p: u32| #[trigger] window_targets(
                o,
                table,
                i,
                p,
            )) {
                frozen_window(o, ow, nw, table, now) || (woken_window(ow, nw, now)
                    && eviction_risk(o, table, now, i))
            } else {
                woken_window(ow, nw, now)
            }
        },
    }
}

impl Scheduler {
    /// One tick: walks the registry in insertion order and takes at most
    /// one overdue transition per window, rediscovering each suspend
    /// target immediately before it is frozen.
    #[verifier::rlimit(60)]
    pub fn handle_tick(&mut self, now: u64, table: &Vec<ProcRecord>) -> (acts: Vec<Action>)
        requires
            old(self).wf(),
            crate::process::table_wf(table@),
            table@.len() < usize::MAX,
        ensures
            final(self).wf(),
            final(self).settings == old(self).settings,
            final(self).presets == old(self).presets,
            final(self).on_battery == old(self).on_battery,
            final(self).focused == old(self).focused,
            final(self).pending_focus == old(self).pending_focus,
            final(self).closed_wids == old(self).closed_wids,
            final(self).now == now,
            final(self).windows().len() == old(self).windows().len(),
            !old(self).settings.send_signals ==> acts@ == Seq::<Action>::empty(),
            !old(self).settings.send_signals ==> no_signal_actions(acts@),
            forall|i: int|
                0 <= i < old(self).windows().len() ==> #[trigger] tick_window_post(
                    *old(self),
                    *final(self),
                    table@,
                    now,
                    i,
                ),
            old(self).settings.send_signals ==> forall|i: int|
                0 <= i < old(self).windows().len() && (#[trigger] old(
                    self,
                ).windows()[i]).state is Suspended && !(final(self).windows()[i].state
                    is Suspended) ==> exists|k: int|
                    0 <= k < acts@.len() && action_thaws(
                        #[trigger] acts@[k],
                        old(self).windows()[i].subtree@,
                    ),
            forall|k: int|
                0 <= k < acts@.len() ==> #[trigger] tick_act_ok(*old(self), table@, now, acts@[k]),
            old(self).settings.send_signals ==> forall|i: int|
                0 <= i < old(self).windows().len() && !((#[trigger] old(
                    self,
                ).windows()[i]).state is Suspended) && final(self).windows()[i].state
                    is Suspended ==> exists|k: int|
                    0 <= k < acts@.len() && #[trigger] freeze_act_of(
                        *old(self),
                        table@,
                        i,
                        acts@[k],
                    ),
    {
        self.now = now;
        proof {
            assert forall|k: int| 0 <= k < self.windows().len() implies #[trigger] self.win_wf(
                k,
            ) by {
                assert(old(self).win_wf(k));
            };
            assert forall|a: int, b: int, p: u32|
                0 <= a < b < self.windows().len() && (#[trigger] self.windows()[a].subtree@.contains(p))
                implies !(#[trigger] self.windows()[b].subtree@.contains(p)) by {
                assert(old(self).windows()[a].subtree@.contains(p));
            };
        }
        let mut acts: Vec<Action> = Vec::new();
        let n = self.registry.windows.len();
        let mut i: usize = 0;
        while i < n
            invariant
                i <= n,
                n == old(self).windows().len(),
                self.windows().len() == n,
                self.settings == old(self).settings,
                self.presets == old(self).presets,
                self.on_battery == old(self).on_battery,
                self.focused == old(self).focused,
                self.pending_focus == old(self).pending_focus,
                self.closed_wids == old(self).closed_wids,
                self.now == now,
                old(self).wf(),
                crate::process::table_wf(table@),
                table@.len() < usize::MAX,
                self.registry.wids_unique(),
                forall|k: int| 0 <= k < n ==> #[trigger] self.win_wf(k),
                self.subtrees_disjoint(),
                !old(self).settings.send_signals ==> acts@ == Seq::<Action>::empty(),
                !old(self).settings.send_signals ==> no_signal_actions(acts@),
                forall|k: int|
                    0 <= k < i ==> #[trigger] tick_window_post(*old(self), *self, table@, now, k),
                forall|k: int|
                    i <= k < n ==> self.windows()[k] == old(self).windows()[k] || (woken_window(
                        old(self).windows()[k],
                        #[trigger] self.windows()[k],
                        now,
                    ) && (old(self).windows()[k].state is Suspended || old(
                        self,
                    ).windows()[k].state is Thawing) && eviction_risk(
                        *old(self),
                        table@,
                        now,
                        k,
                    )),
                old(self).settings.send_signals ==> forall|k: int|
                    0 <= k < n && (#[trigger] old(self).windows()[k]).state is Suspended && !(
                    self.windows()[k].state is Suspended) ==> exists|k2: int|
                        0 <= k2 < acts@.len() && action_thaws(
                            #[trigger] acts@[k2],
                            old(self).windows()[k].subtree@,
                        ),
                forall|k: int|
                    0 <= k < acts@.len() ==> #[trigger] tick_act_ok(
                        *old(self),
                        table@,
                        now,
                        acts@[k],
                    ),
                old(self).settings.send_signals ==> forall|k: int|
                    0 <= k < n && !((#[trigger] old(self).windows()[k]).state is Suspended)
                        && self.windows()[k].state is Suspended ==> exists|k2: int|
                        0 <= k2 < acts@.len() && #[trigger] freeze_act_of(
                            *old(self),
                            table@,
                            k,
                            acts@[k2],
                        ),
            decreases n - i,
        {
            let ghost at_entry = *self;
            let ghost acts_entry = acts@;
            let st = self.registry.windows[i].state;
            proof {
                assert(self.win_wf(i as int));
            }
            match st {
                WindowState::Active => {},
                WindowState::PendingSuspend { deadline } => {
                    proof {
                        assert(self.windows()[i as int] == old(self).windows()[i as int]);
                    }
                    if now >= deadline {
                        if !(!self.settings.only_on_battery || self.on_battery) {
                            self.park_window(i, now);
                        } else {
                            self.freeze_window(i, now, table, &mut acts);
                            proof {
                                assert forall|p: u32| #[trigger] window_targets(
                                    at_entry,
                                    table@,
                                    i as int,
                                    p,
                                ) == window_targets(*old(self), table@, i as int, p) by {}
                                if old(self).windows()[i as int].root_pid != 0 && (exists|p: u32|
                                    #[trigger] window_targets(*old(self), table@, i as int, p)) {
                                    let p = choose|p: u32|
                                        #[trigger] window_targets(*old(self), table@, i as int, p);
                                    assert(window_targets(at_entry, table@, i as int, p));
                                    assert(frozen_window(
                                        at_entry,
                                        at_entry.windows()[i as int],
                                        self.windows()[i as int],
                                        table@,
                                        now,
                                    ));
                                    assert(frozen_window(
                                        *old(self),
                                        old(self).windows()[i as int],
                                        self.windows()[i as int],
                                        table@,
                                        now,
                                    ));
                                } else {
                                    if at_entry.windows()[i as int].root_pid != 0 && (exists|
                                        p: u32,
                                    |
                                        #[trigger] window_targets(at_entry, table@, i as int, p)) {
                                        let p = choose|p: u32|
                                            #[trigger] window_targets(
                                                at_entry,
                                                table@,
                                                i as int,
                                                p,
                                            );
                                        assert(window_targets(
                                            *old(self),
                                            table@,
                                            i as int,
                                            p,
                                        ));
                                        assert(false);
                                    }
                                    assert(woken_window(
                                        old(self).windows()[i as int],
                                        self.windows()[i as int],
                                        now,
                                    ));
                                }
                                assert forall|k2: int|
                                    acts_entry.len() <= k2 < acts@.len() implies
                                    #[trigger] tick_act_ok(
                                    *old(self),
                                    table@,
                                    now,
                                    acts@[k2],
                                ) by {
                                    assert(freeze_emit_ok(at_entry, table@, i as int, acts@[k2]));
                                    if freeze_act_of(at_entry, table@, i as int, acts@[k2]) {
                                        assert(due_freeze_candidate(*old(self), now, i as int));
                                        assert(freeze_act_of(
                                            *old(self),
                                            table@,
                                            i as int,
                                            acts@[k2],
                                        ));
                                    } else {
                                        let j = choose|j: int|
                                            0 <= j < at_entry.windows().len() && j != i as int && (
                                            #[trigger] at_entry.windows()[j]).state is Suspended
                                                && action_thaws(
                                                acts@[k2],
                                                at_entry.windows()[j].subtree@,
                                            ) && (exists|p: u32|
                                                at_entry.windows()[j].subtree@.contains(p)
                                                    && window_targets(
                                                    at_entry,
                                                    table@,
                                                    i as int,
                                                    p,
                                                ));
                                        if at_entry.windows()[j] == old(self).windows()[j] {
                                            assert(tick_act_ok(
                                                *old(self),
                                                table@,
                                                now,
                                                acts@[k2],
                                            ));
                                        } else {
                                            assert(tick_window_post(
                                                *old(self),
                                                at_entry,
                                                table@,
                                                now,
                                                j,
                                            ));
                                            assert(due_freeze_candidate(*old(self), now, j));
                                            assert(frozen_window(
                                                *old(self),
                                                old(self).windows()[j],
                                                at_entry.windows()[j],
                                                table@,
                                                now,
                                            ));
                                            assert(tick_act_ok(
                                                *old(self),
                                                table@,
                                                now,
                                                acts@[k2],
                                            ));
                                        }
                                    }
                                };
                            }
                        }
                    }
                },
                WindowState::Suspended { next_thaw } => {
                    proof {
                        assert(self.windows()[i as int] == old(self).windows()[i as int]);
                    }
                    if now >= next_thaw {
                        self.start_thaw(i, now, &mut acts);
                        proof {
                            assert forall|k2: int|
                                acts_entry.len() <= k2 < acts@.len() implies
                                #[trigger] tick_act_ok(*old(self), table@, now, acts@[k2]) by {
                                assert(old(self).windows()[i as int].state is Suspended);
                                assert(action_thaws(
                                    acts@[k2],
                                    old(self).windows()[i as int].subtree@,
                                ));
                            };
                        }
                    }
                },
                WindowState::Thawing { deadline } => {
                    proof {
                        assert(self.windows()[i as int] == old(self).windows()[i as int]);
                    }
                    if now >= deadline {
                        if !(!self.settings.only_on_battery || self.on_battery) {
                            self.park_window(i, now);
                        } else {
                            self.freeze_window(i, now, table, &mut acts);
                            proof {
                                assert forall|p: u32| #[trigger] window_targets(
                                    at_entry,
                                    table@,
                                    i as int,
                                    p,
                                ) == window_targets(*old(self), table@, i as int, p) by {}
                                if old(self).windows()[i as int].root_pid != 0 && (exists|p: u32|
                                    #[trigger] window_targets(*old(self), table@, i as int, p)) {
                                    let p = choose|p: u32|
                                        #[trigger] window_targets(*old(self), table@, i as int, p);
                                    assert(window_targets(at_entry, table@, i as int, p));
                                    assert(frozen_window(
                                        at_entry,
                                        at_entry.windows()[i as int],
                                        self.windows()[i as int],
                                        table@,
                                        now,
                                    ));
                                    assert(frozen_window(
                                        *old(self),
                                        old(self).windows()[i as int],
                                        self.windows()[i as int],
                                        table@,
                                        now,
                                    ));
                                } else {
                                    if at_entry.windows()[i as int].root_pid != 0 && (exists|
                                        p: u32,
                                    |
                                        #[trigger] window_targets(at_entry, table@, i as int, p)) {
                                        let p = choose|p: u32|
                                            #[trigger] window_targets(
                                                at_entry,
                                                table@,
                                                i as int,
                                                p,
                                            );
                                        assert(window_targets(
                                            *old(self),
                                            table@,
                                            i as int,
                                            p,
                                        ));
                                        assert(false);
                                    }
                                    assert(woken_window(
                                        old(self).windows()[i as int],
                                        self.windows()[i as int],
                                        now,
                                    ));
                                }
                                assert forall|k2: int|
                                    acts_entry.len() <= k2 < acts@.len() implies
                                    #[trigger] tick_act_ok(
                                    *old(self),
                                    table@,
                                    now,
                                    acts@[k2],
                                ) by {
                                    assert(freeze_emit_ok(at_entry, table@, i as int, acts@[k2]));
                                    if freeze_act_of(at_entry, table@, i as int, acts@[k2]) {
                                        assert(due_freeze_candidate(*old(self), now, i as int));
                                        assert(freeze_act_of(
                                            *old(self),
                                            table@,
                                            i as int,
                                            acts@[k2],
                                        ));
                                    } else {
                                        let j = choose|j: int|
                                            0 <= j < at_entry.windows().len() && j != i as int && (
                                            #[trigger] at_entry.windows()[j]).state is Suspended
                                                && action_thaws(
                                                acts@[k2],
                                                at_entry.windows()[j].subtree@,
                                            ) && (exists|p: u32|
                                                at_entry.windows()[j].subtree@.contains(p)
                                                    && window_targets(
                                                    at_entry,
                                                    table@,
                                                    i as int,
                                                    p,
                                                ));
                                        if at_entry.windows()[j] == old(self).windows()[j] {
                                            assert(tick_act_ok(
                                                *old(self),
                                                table@,
                                                now,
                                                acts@[k2],
                                            ));
                                        } else {
                                            assert(tick_window_post(
                                                *old(self),
                                                at_entry,
                                                table@,
                                                now,
                                                j,
                                            ));
                                            assert(due_freeze_candidate(*old(self), now, j));
                                            assert(frozen_window(
                                                *old(self),
                                                old(self).windows()[j],
                                                at_entry.windows()[j],
                                                table@,
                                                now,
                                            ));
                                            assert(tick_act_ok(
                                                *old(self),
                                                table@,
                                                now,
                                                acts@[k2],
                                            ));
                                        }
                                    }
                                };
                            }
                        }
                    }
                },
            }
            proof {
                assert forall|k: int|
                    0 <= k < n && k != i && self.windows()[k] != at_entry.windows()[k]
                        implies woken_window(at_entry.windows()[k], self.windows()[k], now) && (
                    at_entry.windows()[k].state is Suspended || at_entry.windows()[k].state
                        is Thawing) && eviction_risk(*old(self), table@, now, k) by {
                    let p = choose|p: u32|
                        at_entry.windows()[k].subtree@.contains(p) && #[trigger] window_targets(
                            at_entry,
                            table@,
                            i as int,
                            p,
                        );
                    assert(window_targets(*old(self), table@, i as int, p));
                    assert(due_freeze_candidate(*old(self), now, i as int));
                    if at_entry.windows()[k] == old(self).windows()[k] {
                        assert(old(self).windows()[k].subtree@.contains(p));
                    } else {
                        assert(tick_window_post(*old(self), at_entry, table@, now, k));
                        if at_entry.windows()[k].state is Suspended && !(old(
                            self,
                        ).windows()[k].state is Suspended) {
                            assert(window_targets(*old(self), table@, k, p));
                        } else {
                            assert(old(self).windows()[k].subtree@.contains(p));
                        }
                    }
                    assert(eviction_risk(*old(self), table@, now, k));
                };
                assert forall|k: int|
                    0 <= k < i + 1 implies #[trigger] tick_window_post(
                        *old(self),
                        *self,
                        table@,
                        now,
                        k,
                    ) by {
                    if k < i {
                        assert(tick_window_post(*old(self), at_entry, table@, now, k));
                        if self.windows()[k] != at_entry.windows()[k] {
                            lemma_post_after_wake(*old(self), at_entry, *self, table@, now, k);
                        }
                    }
                };
                assert forall|k: int|
                    i + 1 <= k < n implies self.windows()[k] == old(self).windows()[k] || (
                woken_window(
                    old(self).windows()[k],
                    #[trigger] self.windows()[k],
                    now,
                ) && (old(self).windows()[k].state is Suspended || old(
                    self,
                ).windows()[k].state is Thawing) && eviction_risk(*old(self), table@, now, k)) by {
                    if self.windows()[k] != at_entry.windows()[k] {
                        assert(woken_window(at_entry.windows()[k], self.windows()[k], now)
                            && (at_entry.windows()[k].state is Suspended
                            || at_entry.windows()[k].state is Thawing));
                        if at_entry.windows()[k] != old(self).windows()[k] {
                            assert(woken_window(
                                old(self).windows()[k],
                                at_entry.windows()[k],
                                now,
                            ));
                            assert(at_entry.windows()[k].subtree@.len() == 0);
                        }
                    }
                };
                if !old(self).settings.send_signals {
                    assert forall|k2: int|
                        0 <= k2 < acts@.len() implies !((#[trigger] acts@[k2]) is Freeze) && !(
                        acts@[k2] is Thaw) by {
                        if k2 < acts_entry.len() {
                            assert(acts@[k2] == acts_entry[k2]);
                        }
                    };
                }
                assert forall|k2c: int| 0 <= k2c < acts_entry.len() implies acts@[k2c]
                    == acts_entry[k2c] by {}
                assert forall|k2: int|
                    0 <= k2 < acts_entry.len() implies #[trigger] tick_act_ok(
                    *old(self),
                    table@,
                    now,
                    acts@[k2],
                ) by {
                    assert(tick_act_ok(*old(self), table@, now, acts_entry[k2]));
                    assert(acts@[k2] == acts_entry[k2]);
                };
                assert forall|k2: int|
                    acts_entry.len() <= k2 < acts@.len() implies #[trigger] tick_act_ok(
                    *old(self),
                    table@,
                    now,
                    acts@[k2],
                ) by {
                    assert(tick_act_ok(*old(self), table@, now, acts@[k2]));
                };
                if old(self).settings.send_signals {
                    assert forall|k: int|
                        0 <= k < n && !((#[trigger] old(self).windows()[k]).state is Suspended)
                            && self.windows()[k].state is Suspended implies exists|k2: int|
                            0 <= k2 < acts@.len() && #[trigger] freeze_act_of(
                                *old(self),
                                table@,
                                k,
                                acts@[k2],
                            ) by {
                        if at_entry.windows()[k].state is Suspended {
                            let k2 = choose|k2: int|
                                0 <= k2 < acts_entry.len() && #[trigger] freeze_act_of(
                                    *old(self),
                                    table@,
                                    k,
                                    acts_entry[k2],
                                );
                            assert(freeze_act_of(*old(self), table@, k, acts@[k2]));
                        } else {
                            assert(k == i as int);
                            assert(frozen_window(
                                *old(self),
                                old(self).windows()[k],
                                self.windows()[k],
                                table@,
                                now,
                            ));
                            assert(acts@.len() > acts_entry.len());
                            assert(freeze_act_of(at_entry, table@, i as int, acts@[acts@.len()
                                - 1]));
                            assert(freeze_act_of(*old(self), table@, k, acts@[acts@.len() - 1]));
                        }
                    };
                }
                if old(self).settings.send_signals {
                    assert forall|k: int|
                        0 <= k < n && (#[trigger] old(self).windows()[k]).state is Suspended
                            && !(self.windows()[k].state is Suspended) implies exists|k2: int|
                            0 <= k2 < acts@.len() && action_thaws(
                                #[trigger] acts@[k2],
                                old(self).windows()[k].subtree@,
                            ) by {
                        if !(at_entry.windows()[k].state is Suspended) {
                            let k2 = choose|k2: int|
                                0 <= k2 < acts_entry.len() && action_thaws(
                                    #[trigger] acts_entry[k2],
                                    old(self).windows()[k].subtree@,
                                );
                            assert(action_thaws(acts@[k2], old(self).windows()[k].subtree@));
                        } else {
                            if k < i {
                                assert(tick_window_post(*old(self), at_entry, table@, now, k));
                            }
                            assert(at_entry.windows()[k] == old(self).windows()[k]);
                        }
                    };
                }
            }
            i = i + 1;
        }
        acts
    }
}


impl Scheduler {
    /// Rediscovers the suspend target of window `i` and freezes it; a
    /// window with nothing to suspend is woken instead.  Any other window
    /// whose stale subtree shares a pid with the fresh discovery loses it
    /// (the later discovery wins).
    fn freeze_window(&mut self, i: usize, now: u64, table: &Vec<ProcRecord>, acts: &mut Vec<Action>)
        requires
            old(self).wf(),
            i < old(self).windows().len(),
            old(self).windows()[i as int].state is PendingSuspend || old(
                self,
            ).windows()[i as int].state is Thawing,
            old(self).power_allows(),
            crate::process::table_wf(table@),
            table@.len() < usize::MAX,
        ensures
            final(self).wf(),
            final(self).settings == old(self).settings,
            final(self).presets == old(self).presets,
            final(self).on_battery == old(self).on_battery,
            final(self).now == old(self).now,
            final(self).closed_wids == old(self).closed_wids,
            final(self).focused == old(self).focused,
            final(self).pending_focus == old(self).pending_focus,
            final(self).windows().len() == old(self).windows().len(),
            (old(self).windows()[i as int].root_pid != 0 && (exists|p: u32|
                #[trigger] window_targets(*old(self), table@, i as int, p))) ==> frozen_window(
                *old(self),
                old(self).windows()[i as int],
                final(self).windows()[i as int],
                table@,
                now,
            ),
            !(old(self).windows()[i as int].root_pid != 0 && (exists|p: u32|
                #[trigger] window_targets(*old(self), table@, i as int, p))) ==> woken_window(
                old(self).windows()[i as int],
                final(self).windows()[i as int],
                now,
            ),
            forall|j: int|
                0 <= j < old(self).windows().len() && j != i ==> final(self).windows()[j] == old(
                    self,
                ).windows()[j] || (woken_window(
                    old(self).windows()[j],
                    #[trigger] final(self).windows()[j],
                    now,
                ) && (old(self).windows()[j].state is Suspended || old(
                    self,
                ).windows()[j].state is Thawing) && (exists|p: u32|
                    old(self).windows()[j].subtree@.contains(p) && #[trigger] window_targets(
                        *old(self),
                        table@,
                        i as int,
                        p,
                    ))),
            acts_extended(old(acts)@, final(acts)@, old(self).settings.send_signals),
            old(self).settings.send_signals ==> forall|j: int|
                0 <= j < old(self).windows().len() && j != i && (#[trigger] old(
                    self,
                ).windows()[j]).state is Suspended && final(self).windows()[j] != old(
                    self,
                ).windows()[j] ==> exists|k: int|
                    0 <= k < final(acts)@.len() && action_thaws(
                        #[trigger] final(acts)@[k],
                        old(self).windows()[j].subtree@,
                    ),
            forall|k: int|
                old(acts)@.len() <= k < final(acts)@.len() ==> #[trigger] freeze_emit_ok(
                    *old(self),
                    table@,
                    i as int,
                    final(acts)@[k],
                ),
            (old(self).settings.send_signals && old(self).windows()[i as int].root_pid != 0 && (
            exists|p: u32| #[trigger] window_targets(*old(self), table@, i as int, p)))
                ==> final(acts)@.len() > old(acts)@.len() && freeze_act_of(
                *old(self),
                table@,
                i as int,
                final(acts)@[final(acts)@.len() - 1],
            ),
            !old(self).settings.send_signals ==> final(acts)@ == old(acts)@,
    {
        let root_pid = self.registry.windows[i].root_pid;
        let preset = self.registry.windows[i].preset;
        proof {
            assert(old(self).win_wf(i as int));
        }
        if root_pid == 0 {
            self.registry.apply_transition(i, WindowState::Active, Vec::new(), now);
            proof {
                assert(woken_window(
                    old(self).windows()[i as int],
                    self.windows()[i as int],
                    now,
                ));
                assert forall|k: int| 0 <= k < self.windows().len() implies #[trigger] self
                    .win_wf(k) by {
                    assert(old(self).win_wf(k));
                };
                assert forall|a: int, b: int, p: u32|
                    0 <= a < b < self.windows().len() && (#[trigger] self.windows()[a].subtree@.contains(p))
                    implies !(#[trigger] self.windows()[b].subtree@.contains(p)) by {
                    assert(old(self).windows()[a].subtree@.contains(p));
                };
            }
            return ;
        }
        let pat: &str = match preset {
            Some(p) => self.presets[p].subtree_pattern.as_str(),
            None => "",
        };
        proof {
            reveal_strlit("");
            assert(pat@ == old(self).spec_pattern(preset));
        }
        let targets = crate::process::select_targets(table, root_pid, pat);
        if targets.len() == 0 {
            self.registry.apply_transition(i, WindowState::Active, Vec::new(), now);
            proof {
                assert forall|p: u32| !(#[trigger] window_targets(
                    *old(self),
                    table@,
                    i as int,
                    p,
                )) by {
                    assert(!crate::process::has_pid(targets@, p));
                };
                assert(woken_window(
                    old(self).windows()[i as int],
                    self.windows()[i as int],
                    now,
                ));
                assert forall|k: int| 0 <= k < self.windows().len() implies #[trigger] self
                    .win_wf(k) by {
                    assert(old(self).win_wf(k));
                };
                assert forall|a: int, b: int, p: u32|
                    0 <= a < b < self.windows().len() && (#[trigger] self.windows()[a].subtree@.contains(p))
                    implies !(#[trigger] self.windows()[b].subtree@.contains(p)) by {
                    assert(old(self).windows()[a].subtree@.contains(p));
                };
            }
            return ;
        }
        let pids = crate::process::pids_of(&targets);
        let order = crate::process::leaf_first(&targets);
        let ghost gpids = pids@;
        proof {
            assert(exists|p: u32| #[trigger] window_targets(*old(self), table@, i as int, p)) by {
                assert(crate::process::has_pid(targets@, targets@[0].pid));
                assert(window_targets(*old(self), table@, i as int, targets@[0].pid));
            }
            assert forall|p: u32| gpids.contains(p) implies crate::process::is_target(
                table@,
                root_pid,
                old(self).spec_pattern(preset),
                p,
            ) by {
                let k = choose|k: int| 0 <= k < gpids.len() && gpids[k] == p;
                assert(targets@[k].pid == p);
                assert(crate::process::has_pid(targets@, p));
            };
            assert forall|p: u32|
                crate::process::is_target(
                    table@,
                    root_pid,
                    old(self).spec_pattern(preset),
                    p,
                ) implies gpids.contains(p) by {
                assert(crate::process::has_pid(targets@, p));
                let k = choose|k: int| 0 <= k < targets@.len() && targets@[k].pid == p;
                assert(gpids[k] == p);
            };
        }
        let ghost acts_before_evict = acts@;
        self.evict_overlaps(i, &pids, now, acts);
        let ghost mid = *self;
        let ghost acts_mid = acts@;
        let t = sat_add(now, self.settings.resume_every);
        self.registry.apply_transition(i, WindowState::Suspended { next_thaw: t }, pids, now);
        if self.settings.send_signals {
            acts.push(Action::Freeze { pids: order });
        }
        proof {
            assert forall|k: int| 0 <= k < acts_mid.len() implies acts@[k] == acts_mid[k] by {}
            crate::process::lemma_layers_desc_membership(targets@, table@.len() as int, 0);
            assert(crate::process::layers_desc(targets@, table@.len() as int, 0) == order@);
            assert forall|p: u32| #[trigger] order@.contains(p) == window_targets(
                *old(self),
                table@,
                i as int,
                p,
            ) by {
                if order@.contains(p) {
                    assert(crate::process::has_pid(targets@, p));
                } else {
                    if window_targets(*old(self), table@, i as int, p) {
                        assert(crate::process::has_pid(targets@, p));
                        let i2 = choose|i2: int|
                            0 <= i2 < targets@.len() && targets@[i2].pid == p;
                        assert(0 <= targets@[i2].depth <= table@.len());
                        assert(order@.contains(p));
                    }
                }
            };
            assert forall|k: int|
                old(acts)@.len() <= k < acts@.len() implies #[trigger] freeze_emit_ok(
                *old(self),
                table@,
                i as int,
                acts@[k],
            ) by {
                if k < acts_mid.len() {
                    assert(evict_thaw_act(*old(self), i as int, gpids, acts_mid[k]));
                    let j = choose|j: int|
                        0 <= j < old(self).windows().len() && j != i as int && (#[trigger] old(
                            self,
                        ).windows()[j]).state is Suspended && pid_overlap(
                            old(self).windows()[j].subtree@,
                            gpids,
                        ) && action_thaws(acts_mid[k], old(self).windows()[j].subtree@);
                    let p = choose|p: u32|
                        old(self).windows()[j].subtree@.contains(p) && gpids.contains(p);
                    assert(window_targets(*old(self), table@, i as int, p));
                    assert(action_thaws(acts@[k], old(self).windows()[j].subtree@));
                } else {
                    assert(freeze_act_of(*old(self), table@, i as int, acts@[k]));
                }
            };
            if old(self).settings.send_signals {
                assert(freeze_act_of(*old(self), table@, i as int, acts@[acts@.len() - 1]));
            }
            if old(self).settings.send_signals {
                assert forall|j: int|
                    0 <= j < old(self).windows().len() && j != i && (#[trigger] old(
                        self,
                    ).windows()[j]).state is Suspended && self.windows()[j] != old(
                        self,
                    ).windows()[j] implies exists|k: int|
                        0 <= k < acts@.len() && action_thaws(
                            #[trigger] acts@[k],
                            old(self).windows()[j].subtree@,
                        ) by {
                    assert(self.windows()[j] == mid.windows()[j]);
                    assert((if pid_overlap(old(self).windows()[j].subtree@, gpids) {
                        woken_window(old(self).windows()[j], mid.windows()[j], now)
                    } else {
                        mid.windows()[j] == old(self).windows()[j]
                    }));
                    assert(pid_overlap(old(self).windows()[j].subtree@, gpids));
                    let k = choose|k: int|
                        0 <= k < acts_mid.len() && action_thaws(
                            #[trigger] acts_mid[k],
                            old(self).windows()[j].subtree@,
                        );
                    assert(action_thaws(acts@[k], old(self).windows()[j].subtree@));
                };
            }
            assert(self.windows()[i as int].subtree@ == gpids);
            if crate::process::is_target(
                table@,
                root_pid,
                old(self).spec_pattern(preset),
                root_pid,
            ) {
                assert(crate::process::has_pid(targets@, root_pid));
                let idx = choose|idx: int| 0 <= idx < targets@.len() && targets@[idx].pid
                    == root_pid;
                assert(targets@[idx].depth == 0);
                assert(targets@[0].depth <= targets@[idx].depth);
                assert(targets@[0].pid == root_pid);
                assert(gpids[0] == root_pid);
            }
            assert(frozen_window(
                *old(self),
                old(self).windows()[i as int],
                self.windows()[i as int],
                table@,
                now,
            ));
            assert forall|j: int|
                0 <= j < old(self).windows().len() && j != i implies self.windows()[j] == old(
                    self,
                ).windows()[j] || (woken_window(
                    old(self).windows()[j],
                    #[trigger] self.windows()[j],
                    now,
                ) && (old(self).windows()[j].state is Suspended || old(
                    self,
                ).windows()[j].state is Thawing) && (exists|p: u32|
                    old(self).windows()[j].subtree@.contains(p) && #[trigger] window_targets(
                        *old(self),
                        table@,
                        i as int,
                        p,
                    ))) by {
                assert(self.windows()[j] == mid.windows()[j]);
                assert((if pid_overlap(old(self).windows()[j].subtree@, gpids) {
                    woken_window(old(self).windows()[j], mid.windows()[j], now)
                } else {
                    mid.windows()[j] == old(self).windows()[j]
                }));
                if pid_overlap(old(self).windows()[j].subtree@, gpids) {
                    assert(old(self).windows()[j].subtree@.len() > 0);
                    assert(old(self).win_wf(j));
                    let p = choose|p: u32|
                        old(self).windows()[j].subtree@.contains(p) && gpids.contains(p);
                    assert(window_targets(*old(self), table@, i as int, p));
                }
            };
            assert forall|k: int| 0 <= k < self.windows().len() implies #[trigger] self.win_wf(
                k,
            ) by {
                assert(old(self).win_wf(k));
                if k != i {
                    assert(self.windows()[k] == mid.windows()[k]);
                    assert(mid.win_wf(k));
                }
            };
            assert forall|a: int, b: int, p: u32|
                0 <= a < b < self.windows().len() && (#[trigger] self.windows()[a].subtree@.contains(p))
                implies !(#[trigger] self.windows()[b].subtree@.contains(p)) by {
                if a != i {
                    assert(self.windows()[a] == mid.windows()[a]);
                    assert((if pid_overlap(old(self).windows()[a].subtree@, gpids) {
                        woken_window(old(self).windows()[a], mid.windows()[a], now)
                    } else {
                        mid.windows()[a] == old(self).windows()[a]
                    }));
                }
                if b != i {
                    assert(self.windows()[b] == mid.windows()[b]);
                    assert((if pid_overlap(old(self).windows()[b].subtree@, gpids) {
                        woken_window(old(self).windows()[b], mid.windows()[b], now)
                    } else {
                        mid.windows()[b] == old(self).windows()[b]
                    }));
                }
                if a == i {
                    if self.windows()[b].subtree@.contains(p) {
                        if pid_overlap(old(self).windows()[b].subtree@, gpids) {
                            assert(self.windows()[b].subtree@.len() == 0);
                        } else {
                            assert(old(self).windows()[b].subtree@.contains(p));
                            assert(gpids.contains(p));
                            assert(pid_overlap(old(self).windows()[b].subtree@, gpids));
                        }
                    }
                } else if b == i {
                    if pid_overlap(old(self).windows()[a].subtree@, gpids) {
                        assert(self.windows()[a].subtree@.len() == 0);
                    } else {
                        assert(old(self).windows()[a].subtree@.contains(p));
                        if gpids.contains(p) {
                            assert(pid_overlap(old(self).windows()[a].subtree@, gpids));
                        }
                    }
                } else {
                    assert(old(self).windows()[a].subtree@.contains(p));
                }
            };
            assert forall|a: int, b: int|
                0 <= a < b < self.windows().len() implies self.windows()[a].wid != self
                .windows()[b].wid by {
                assert(old(self).windows()[a].wid == self.windows()[a].wid);
                assert(old(self).windows()[b].wid == self.windows()[b].wid);
            };
        }
    }
}


/// A woken window still satisfies the tick relation: waking commutes with
/// the transition already taken this tick.
proof fn lemma_post_after_wake(
    o: Scheduler,
    m1: Scheduler,
    m2: Scheduler,
    table: Seq<ProcRecord>,
    now: u64,
    k: int,
)
    requires
        0 <= k < o.windows().len(),
        o.windows().len() == m1.windows().len(),
        m1.windows().len() == m2.windows().len(),
        tick_window_post(o, m1, table, now, k),
        woken_window(m1.windows()[k], m2.windows()[k], now),
        m1.windows()[k].state is Suspended || m1.windows()[k].state is Thawing,
        eviction_risk(o, table, now, k),
    ensures
        tick_window_post(o, m2, table, now, k),
{
    let ow = o.windows()[k];
    let w1 = m1.windows()[k];
    let w2 = m2.windows()[k];
    assert(woken_window(ow, w2, now));
}

impl Scheduler {
    /// Restarts the grace period of window `i`: the power policy forbids
    /// suspending it right now.
    fn park_window(&mut self, i: usize, now: u64)
        requires
            old(self).wf(),
            i < old(self).windows().len(),
            old(self).windows()[i as int].state is PendingSuspend || old(
                self,
            ).windows()[i as int].state is Thawing,
        ensures
            final(self).wf(),
            final(self).settings == old(self).settings,
            final(self).presets == old(self).presets,
            final(self).on_battery == old(self).on_battery,
            final(self).now == old(self).now,
            final(self).closed_wids == old(self).closed_wids,
            final(self).focused == old(self).focused,
            final(self).pending_focus == old(self).pending_focus,
            final(self).windows().len() == old(self).windows().len(),
            parked_window(
                *old(self),
                old(self).windows()[i as int],
                final(self).windows()[i as int],
                now,
            ),
            forall|j: int|
                0 <= j < old(self).windows().len() && j != i ==> final(self).windows()[j] == old(
                    self,
                ).windows()[j],
    {
        proof {
            assert(old(self).win_wf(i as int));
        }
        let preset = self.registry.windows[i].preset;
        let d = self.delay_for(preset);
        self.registry.apply_transition(
            i,
            WindowState::PendingSuspend { deadline: sat_add(now, d) },
            Vec::new(),
            now,
        );
        proof {
            assert forall|k: int| 0 <= k < self.windows().len() implies #[trigger] self.win_wf(
                k,
            ) by {
                assert(old(self).win_wf(k));
            };
            assert forall|a: int, b: int, p: u32|
                0 <= a < b < self.windows().len() && (#[trigger] self.windows()[a].subtree@.contains(p))
                implies !(#[trigger] self.windows()[b].subtree@.contains(p)) by {
                assert(old(self).windows()[a].subtree@.contains(p));
            };
        }
    }

    /// Begins the scheduled housekeeping thaw of suspended window `i`.
    fn start_thaw(&mut self, i: usize, now: u64, acts: &mut Vec<Action>)
        requires
            old(self).wf(),
            i < old(self).windows().len(),
            old(self).windows()[i as int].state is Suspended,
        ensures
            final(self).wf(),
            final(self).settings == old(self).settings,
            final(self).presets == old(self).presets,
            final(self).on_battery == old(self).on_battery,
            final(self).now == old(self).now,
            final(self).closed_wids == old(self).closed_wids,
            final(self).focused == old(self).focused,
            final(self).pending_focus == old(self).pending_focus,
            final(self).windows().len() == old(self).windows().len(),
            final(self).windows()[i as int] == (ManagedWindow {
                state: (WindowState::Thawing {
                    deadline: spec_sat_add(now, old(self).settings.resume_for),
                }),
                last_transition_at: now,
                ..old(self).windows()[i as int]
            }),
            forall|j: int|
                0 <= j < old(self).windows().len() && j != i ==> final(self).windows()[j] == old(
                    self,
                ).windows()[j],
            acts_extended(old(acts)@, final(acts)@, old(self).settings.send_signals),
            old(self).settings.send_signals ==> final(acts)@.len() == old(acts)@.len() + 1
                && action_thaws(
                final(acts)@[old(acts)@.len() as int],
                old(self).windows()[i as int].subtree@,
            ),
            !old(self).settings.send_signals ==> final(acts)@ == old(acts)@,
    {
        proof {
            assert(old(self).win_wf(i as int));
        }
        if self.settings.send_signals {
            let pids = clone_pids(&self.registry.windows[i].subtree);
            acts.push(Action::Thaw { pids });
        }
        let t = sat_add(now, self.settings.resume_for);
        self.registry.set_state(i, WindowState::Thawing { deadline: t }, now);
        proof {
            assert forall|k: int| 0 <= k < self.windows().len() implies #[trigger] self.win_wf(
                k,
            ) by {
                assert(old(self).win_wf(k));
            };
            assert forall|a: int, b: int, p: u32|
                0 <= a < b < self.windows().len() && (#[trigger] self.windows()[a].subtree@.contains(p))
                implies !(#[trigger] self.windows()[b].subtree@.contains(p)) by {
                assert(old(self).windows()[a].subtree@.contains(p));
            };
        }
    }
}


/// An event the scheduler can consume: a tick's snapshot lists each pid
/// at most once and fits in memory.
pub open spec fn event_wf(ev: Event) -> bool {
    match ev {
        Event::Tick { now: _, table } => crate::process::table_wf(table@) && table@.len()
            < usize::MAX,
        _ => true,
    }
}

/// What dispatching `ev` does: the per-event relation between the old and
/// the new scheduler state, and the actions that may come out.
pub open spec fn event_post(o: Scheduler, n: Scheduler, ev: Event, acts: Seq<Action>) -> bool {
    match ev {
        Event::Tick { now, table } => {
            &&& n.now == now
            &&& n.focused == o.focused
            &&& n.pending_focus == o.pending_focus
            &&& n.on_battery == o.on_battery
            &&& n.closed_wids == o.closed_wids
            &&& n.windows().len() == o.windows().len()
            &&& (forall|i: int|
                0 <= i < o.windows().len() ==> #[trigger] tick_window_post(o, n, table@, now, i))
            &&& (forall|k: int|
                0 <= k < acts.len() ==> #[trigger] tick_act_ok(o, table@, now, acts[k]))
            &&& (!o.settings.send_signals ==> acts.len() == 0)
        },
        Event::Focus { wid, now } => {
            if (match wid {
                Some(w) => o.closed_wids@.contains(w),
                None => false,
            }) {
                n == o && acts.len() == 0
            } else {
                &&& n.focused == wid
                &&& n.on_battery == o.on_battery
                &&& n.now == o.now
                &&& n.closed_wids == o.closed_wids
                &&& n.windows().len() == o.windows().len()
                &&& (forall|i: int|
                    0 <= i < o.windows().len() ==> #[trigger] focus_window_post(o, n, wid, now, i))
                &&& acts.len() <= 1
            }
        },
        Event::Opened { wid, class, title, root_pid, now } => {
            if o.closed_wids@.contains(wid) {
                n == o && acts.len() == 0
            } else {
                &&& n.on_battery == o.on_battery
                &&& n.now == o.now
                &&& n.closed_wids == o.closed_wids
                &&& (exists|w: ManagedWindow|
                    #[trigger] opened_window_ok(o, n, w, wid, class@, title@, root_pid, now)
                        && registry_upsert(o.windows(), n.windows(), wid, w))
                &&& acts.len() <= 1
            }
        },
        Event::Closed { wid, now } => {
            &&& n.closed_wids@ == o.closed_wids@.push(wid)
            &&& n.on_battery == o.on_battery
            &&& n.now == o.now
            &&& (!has_wid(o.windows(), wid) ==> n.windows() == o.windows() && acts.len() == 0)
            &&& (has_wid(o.windows(), wid) ==> exists|i: int|
                0 <= i < o.windows().len() && (#[trigger] o.windows()[i]).wid == wid
                    && n.windows() == o.windows().remove(i))
            &&& acts.len() <= 1
        },
        Event::Power { on_battery, now } => {
            if on_battery == o.on_battery {
                n == o && acts.len() == 0
            } else {
                &&& n.on_battery == on_battery
                &&& n.now == o.now
                &&& n.focused == o.focused
                &&& n.closed_wids == o.closed_wids
                &&& n.windows().len() == o.windows().len()
                &&& (forall|i: int|
                    0 <= i < o.windows().len() ==> #[trigger] power_window_post(
                        o,
                        n,
                        on_battery,
                        now,
                        i,
                    ))
            }
        },
    }
}

impl Scheduler {
    /// Dispatches one event of the merged stream: each event kind takes
    /// the transition its handler's contract describes.
    pub fn handle_event(&mut self, ev: Event) -> (acts: Vec<Action>)
        requires
            old(self).wf(),
            event_wf(ev),
        ensures
            final(self).wf(),
            final(self).settings == old(self).settings,
            final(self).presets == old(self).presets,
            !old(self).settings.send_signals ==> no_signal_actions(acts@),
            event_post(*old(self), *final(self), ev, acts@),
    {
        match ev {
            Event::Tick { now, table } => self.handle_tick(now, &table),
            Event::Focus { wid, now } => self.handle_focus(wid, now),
            Event::Opened { wid, class, title, root_pid, now } => self.handle_opened(
                wid,
                class,
                title,
                root_pid,
                now,
            ),
            Event::Closed { wid, now } => self.handle_closed(wid, now),
            Event::Power { on_battery, now } => self.handle_power(on_battery, now),
        }
    }

    /// Shutdown: wakes every window, resuming each frozen subtree, and
    /// lifts the frequency cap if one is in force.  Afterwards no managed
    /// window is suspended or thawing, so no subtree outlives the daemon.
    pub fn shutdown(&mut self, now: u64) -> (acts: Vec<Action>)
        requires
            old(self).wf(),
        ensures
            final(self).wf(),
            final(self).settings == old(self).settings,
            final(self).presets == old(self).presets,
            final(self).windows().len() == old(self).windows().len(),
            !old(self).settings.send_signals ==> no_signal_actions(acts@),
            forall|i: int|
                0 <= i < final(self).windows().len() ==> !((#[trigger] final(self).windows()[i]).state is Suspended)
                    && !(final(self).windows()[i].state is Thawing)
                    && final(self).windows()[i].subtree@.len() == 0,
            old(self).settings.send_signals ==> forall|i: int|
                0 <= i < old(self).windows().len() && (#[trigger] old(
                    self,
                ).windows()[i]).state is Suspended ==> exists|k: int|
                    0 <= k < acts@.len() && action_thaws(
                        #[trigger] acts@[k],
                        old(self).windows()[i].subtree@,
                    ),
            ({
                let pre: int = if old(self).settings.downclock_on_battery > 0 && old(
                    self,
                ).on_battery {
                    1int
                } else {
                    0int
                };
                &&& (pre == 1 ==> acts@.len() >= 1 && acts@[0] == Action::UncapFrequency)
                &&& (old(self).settings.send_signals ==> acts@.len() == pre + suspended_count(
                    old(self).windows(),
                    old(self).windows().len() as int,
                ))
                &&& (!old(self).settings.send_signals ==> acts@.len() == pre)
                &&& (forall|k: int|
                    pre <= k < acts@.len() ==> #[trigger] wake_thaw_act(*old(self), acts@[k]))
            }),
    {
        let mut acts: Vec<Action> = Vec::new();
        if self.settings.downclock_on_battery > 0 && self.on_battery {
            acts.push(Action::UncapFrequency);
        }
        let ghost acts0 = acts@;
        let n = self.registry.windows.len();
        let mut m: usize = 0;
        while m < n
            invariant
                m <= n,
                n == old(self).windows().len(),
                self.windows().len() == n,
                self.settings == old(self).settings,
                self.presets == old(self).presets,
                self.focused == old(self).focused,
                self.pending_focus == old(self).pending_focus,
                self.on_battery == old(self).on_battery,
                self.closed_wids == old(self).closed_wids,
                self.now == old(self).now,
                old(self).wf(),
                !self.settings.send_signals ==> no_signal_actions(acts@),
                self.settings.send_signals ==> acts@.len() == acts0.len() + suspended_count(
                    old(self).windows(),
                    m as int,
                ),
                !self.settings.send_signals ==> acts@ == acts0,
                forall|k: int| 0 <= k < acts0.len() ==> acts@[k] == acts0[k],
                acts@.len() >= acts0.len(),
                forall|k: int|
                    acts0.len() <= k < acts@.len() ==> #[trigger] wake_thaw_act(
                        *old(self),
                        acts@[k],
                    ),
                forall|i: int|
                    0 <= i < m ==> !((#[trigger] self.windows()[i]).state is Suspended) && !(
                    self.windows()[i].state is Thawing) && self.windows()[i].subtree@.len() == 0,
                forall|i: int|
                    0 <= i < m ==> self.windows()[i] == old(self).windows()[i] || woken_window(
                        old(self).windows()[i],
                        #[trigger] self.windows()[i],
                        now,
                    ),
                forall|i: int| m <= i < n ==> self.windows()[i] == old(self).windows()[i],
                self.settings.send_signals ==> forall|i: int|
                    0 <= i < m && (#[trigger] old(self).windows()[i]).state is Suspended
                        ==> exists|k: int|
                        0 <= k < acts@.len() && action_thaws(
                            #[trigger] acts@[k],
                            old(self).windows()[i].subtree@,
                        ),
            decreases n - m,
        {
            let ghost prev = *self;
            let ghost acts_prev = acts@;
            let st = self.registry.windows[m].state;
            let is_active = match st {
                WindowState::Active => true,
                _ => false,
            };
            let is_pending = match st {
                WindowState::PendingSuspend { .. } => true,
                _ => false,
            };
            if !is_active && !is_pending {
                let frozen = match st {
                    WindowState::Suspended { .. } => true,
                    _ => false,
                };
                if frozen && self.settings.send_signals {
                    let pids = clone_pids(&self.registry.windows[m].subtree);
                    acts.push(Action::Thaw { pids });
                    proof {
                        assert(action_thaws(
                            acts@[acts_prev.len() as int],
                            old(self).windows()[m as int].subtree@,
                        ));
                    }
                }
                self.registry.apply_transition(m, WindowState::Active, Vec::new(), now);
            }
            proof {
                assert(old(self).win_wf(m as int));
                assert forall|k2: int| 0 <= k2 < acts_prev.len() implies acts@[k2]
                    == acts_prev[k2] by {}
                assert forall|k: int|
                    acts0.len() <= k < acts@.len() implies #[trigger] wake_thaw_act(
                        *old(self),
                        acts@[k],
                    ) by {
                    if k < acts_prev.len() {
                        assert(wake_thaw_act(*old(self), acts_prev[k]));
                        assert(acts@[k] == acts_prev[k]);
                    } else {
                        assert(prev.windows()[m as int] == old(self).windows()[m as int]);
                        assert(action_thaws(
                            acts@[acts_prev.len() as int],
                            old(self).windows()[m as int].subtree@,
                        ));
                    }
                };
                assert forall|i: int|
                    0 <= i < m + 1 implies !((#[trigger] self.windows()[i]).state is Suspended)
                        && !(self.windows()[i].state is Thawing) && self.windows()[i].subtree@.len()
                        == 0 by {
                    if i < m {
                        assert(self.windows()[i] == prev.windows()[i]);
                    } else {
                        assert(old(self).win_wf(i));
                    }
                };
                if self.settings.send_signals {
                    assert forall|i: int|
                        0 <= i < m + 1 && (#[trigger] old(self).windows()[i]).state
                            is Suspended implies exists|k: int|
                        0 <= k < acts@.len() && action_thaws(
                            #[trigger] acts@[k],
                            old(self).windows()[i].subtree@,
                        ) by {
                        if i < m {
                            let k = choose|k: int|
                                0 <= k < acts_prev.len() && action_thaws(
                                    #[trigger] acts_prev[k],
                                    old(self).windows()[i].subtree@,
                                );
                            assert(action_thaws(acts@[k], old(self).windows()[i].subtree@));
                        } else {
                            assert(action_thaws(
                                acts@[acts_prev.len() as int],
                                old(self).windows()[i].subtree@,
                            ));
                        }
                    };
                }
            }
            m = m + 1;
        }
        proof {
            if old(self).settings.downclock_on_battery > 0 && old(self).on_battery {
                assert(acts0.len() == 1);
                assert(acts@[0] == acts0[0]);
            } else {
                assert(acts0.len() == 0);
            }
            assert forall|k: int| 0 <= k < self.windows().len() implies #[trigger] self.win_wf(
                k,
            ) by {
                assert(old(self).win_wf(k));
            };
            assert forall|a: int, b: int, p: u32|
                0 <= a < b < self.windows().len() && (#[trigger] self.windows()[a].subtree@.contains(p))
                implies !(#[trigger] self.windows()[b].subtree@.contains(p)) by {
                assert(self.windows()[a].subtree@.len() == 0);
            };
            assert forall|a: int, b: int|
                0 <= a < b < self.windows().len() implies self.windows()[a].wid != self
                .windows()[b].wid by {
                assert(self.windows()[a] == old(self).windows()[a] || woken_window(
                    old(self).windows()[a],
                    self.windows()[a],
                    now,
                ));
                assert(self.windows()[b] == old(self).windows()[b] || woken_window(
                    old(self).windows()[b],
                    self.windows()[b],
                    now,
                ));
            };
        }
        acts
    }
}

/// Law: every managed window is in exactly one of the four lifecycle
/// states, and the focused window, when managed, is active.
pub proof fn lemma_focused_window_is_active(s: Scheduler, i: int)
    requires
        s.wf(),
        0 <= i < s.windows().len(),
        s.focused == Some(s.windows()[i].wid),
    ensures
        s.windows()[i].state is Active,
{
    assert(s.win_wf(i));
}

/// Law: no pid stands in the subtrees of two distinct managed windows at
/// the same time.
pub proof fn lemma_no_shared_subtree_pid(s: Scheduler, a: int, b: int, p: u32)
    requires
        s.wf(),
        0 <= a < s.windows().len(),
        0 <= b < s.windows().len(),
        a != b,
        s.windows()[a].subtree@.contains(p),
    ensures
        !s.windows()[b].subtree@.contains(p),
{
}

/// Law: with the battery-only policy in force and the power source on
/// mains throughout, no window is ever suspended (or mid-thaw, which
/// presupposes an earlier suspension).
pub proof fn lemma_on_mains_nothing_frozen(s: Scheduler, i: int)
    requires
        s.wf(),
        s.settings.only_on_battery,
        !s.on_battery,
        0 <= i < s.windows().len(),
    ensures
        !(s.windows()[i].state is Suspended),
        !(s.windows()[i].state is Thawing),
{
    assert(s.win_wf(i));
}

/// Law: each window identifier is managed at most once.
pub proof fn lemma_wid_managed_once(s: Scheduler, a: int, b: int)
    requires
        s.wf(),
        0 <= a < b < s.windows().len(),
    ensures
        s.windows()[a].wid != s.windows()[b].wid,
{
}


/// Law: a suspension never outlasts its schedule.  A window suspended
/// until `next_thaw` does not stay suspended across a tick at or past
/// that time: it moves on to its housekeeping thaw, or is woken outright
/// when a fresh discovery leaves it nothing to hold.  Together with
/// `Scheduler::shutdown`, which wakes every window, no window is left
/// frozen past the daemon's lifetime.
pub proof fn lemma_overdue_suspension_ends(
    o: Scheduler,
    n: Scheduler,
    table: Seq<ProcRecord>,
    now: u64,
    i: int,
    next_thaw: u64,
)
    requires
        0 <= i < o.windows().len(),
        o.windows().len() == n.windows().len(),
        tick_window_post(o, n, table, now, i),
        o.windows()[i].state == (WindowState::Suspended { next_thaw }),
        now >= next_thaw,
    ensures
        !(n.windows()[i].state is Suspended),
{
}

} // verus!
