//! Run-time configuration: global settings and per-application presets.

use vstd::prelude::*;

verus! {

/// Grace period, in seconds, between a window losing focus and its
/// suspension, for windows that match no preset.
pub fn default_suspend_delay() -> (r: u64)
    ensures
        r == 10,
{
    10
}

/// Period, in seconds, between scheduled thaws of a suspended window.
pub fn default_resume_every() -> (r: u64)
    ensures
        r == 60,
{
    60
}

/// Duration, in seconds, of each scheduled thaw.
pub fn default_resume_for() -> (r: u64)
    ensures
        r == 5,
{
    5
}

/// Master switch: when false the daemon does all bookkeeping but never
/// touches the process table.
pub fn default_send_signals() -> (r: bool)
    ensures
        r == true,
{
    true
}

/// Suspend only while the machine runs on battery.
pub fn default_only_on_battery() -> (r: bool)
    ensures
        r == true,
{
    true
}

/// A switch to battery immediately schedules every unfocused window for
/// suspension, bypassing the per-window grace period.
pub fn default_auto_suspend_on_battery() -> (r: bool)
    ensures
        r == true,
{
    true
}

/// CPU frequency cap, in MHz, applied while on battery; zero disables it.
pub fn default_downclock_on_battery() -> (r: u64)
    ensures
        r == 0,
{
    0
}

/// Global settings, immutable after startup.
pub struct Settings {
    /// Grace period before suspending a window that matches no preset.
    pub suspend_delay: u64,
    /// Seconds between scheduled thaws of a suspended window.
    pub resume_every: u64,
    /// Seconds each scheduled thaw lasts.
    pub resume_for: u64,
    /// When false, no signal is ever issued (dry run).
    pub send_signals: bool,
    /// Suspend only while on battery power.
    pub only_on_battery: bool,
    /// Battery onset schedules every unfocused window at once.
    pub auto_suspend_on_battery: bool,
    /// CPU frequency cap in MHz while on battery; zero disables it.
    pub downclock_on_battery: u64,
}

impl Settings {
    /// The settings used when the configuration file has no `[default]`
    /// table, and the fallback for any key it leaves out.
    pub open spec fn spec_default() -> Settings {
        Settings {
            suspend_delay: 10,
            resume_every: 60,
            resume_for: 5,
            send_signals: true,
            only_on_battery: true,
            auto_suspend_on_battery: true,
            downclock_on_battery: 0,
        }
    }
}

impl Default for Settings {
    fn default() -> (s: Settings)
        ensures
            s == Settings::spec_default(),
    {
        Settings {
            suspend_delay: default_suspend_delay(),
            resume_every: default_resume_every(),
            resume_for: default_resume_for(),
            send_signals: default_send_signals(),
            only_on_battery: default_only_on_battery(),
            auto_suspend_on_battery: default_auto_suspend_on_battery(),
            downclock_on_battery: default_downclock_on_battery(),
        }
    }
}

/// One `[[presets]]` block: per-application overrides, selected by a
/// case-sensitive substring match on the window class.
pub struct Preset {
    /// Identifier for diagnostics.
    pub name: String,
    /// Matched against the window class; an empty value matches nothing.
    pub class_substring: String,
    /// Pattern narrowing the suspend target to descendants whose process
    /// name it matches; empty targets the entire subtree.
    pub subtree_pattern: String,
    /// Grace period for windows governed by this preset.
    pub suspend_delay: u64,
}

} // verus!
