use hyprsuspender::config::{
    default_auto_suspend_on_battery, default_downclock_on_battery, default_only_on_battery,
    default_resume_every, default_resume_for, default_send_signals, default_suspend_delay,
    Preset, Settings,
};
use hyprsuspender::matcher::{contains_substring, match_preset};
use hyprsuspender::process::{
    discover_descendants, filter_by_pattern, leaf_first, pids_of, select_targets, ProcRecord,
};
use hyprsuspender::queue::EventQueue;
use hyprsuspender::registry::WindowState;
use hyprsuspender::scheduler::{Action, Event, Scheduler};

fn rec(pid: u32, ppid: u32, name: &str) -> ProcRecord {
    ProcRecord { pid, ppid, kernel_thread: false, name: name.to_string() }
}

fn krec(pid: u32, ppid: u32, name: &str) -> ProcRecord {
    ProcRecord { pid, ppid, kernel_thread: true, name: name.to_string() }
}

fn preset(name: &str, class_substring: &str, pattern: &str, delay: u64) -> Preset {
    Preset {
        name: name.to_string(),
        class_substring: class_substring.to_string(),
        subtree_pattern: pattern.to_string(),
        suspend_delay: delay,
    }
}

#[test]
fn configured_defaults() {
    assert_eq!(default_suspend_delay(), 10);
    assert_eq!(default_resume_every(), 60);
    assert_eq!(default_resume_for(), 5);
    assert!(default_send_signals());
    assert!(default_only_on_battery());
    assert!(default_auto_suspend_on_battery());
    assert_eq!(default_downclock_on_battery(), 0);
    let s = Settings::default();
    assert_eq!(s.suspend_delay, 10);
    assert_eq!(s.resume_every, 60);
    assert_eq!(s.resume_for, 5);
    assert!(s.send_signals);
    assert!(s.only_on_battery);
    assert!(s.auto_suspend_on_battery);
    assert_eq!(s.downclock_on_battery, 0);
}

#[test]
fn substring_matching() {
    assert!(contains_substring("firefox", "fox"));
    assert!(contains_substring("firefox", "firefox"));
    assert!(contains_substring("firefox", ""));
    assert!(!contains_substring("Firefox", "fire"));
    assert!(!contains_substring("fox", "firefox"));
    assert!(contains_substring("", ""));
}

#[test]
fn preset_selection_order_and_empty_guard() {
    let presets = vec![
        preset("broken", "", "", 1),
        preset("slack", "Slack", "", 30),
        preset("any", "a", "", 7),
    ];
    // an empty class substring matches nothing
    assert_eq!(match_preset(&presets, "anything"), Some(2));
    // the first matching preset in file order wins
    assert_eq!(match_preset(&presets, "Slack-beta"), Some(1));
    assert_eq!(match_preset(&presets, "XTERM"), None);
}

#[test]
fn descendant_discovery_walks_the_snapshot() {
    let table = vec![
        rec(1, 0, "init"),
        rec(10, 1, "app"),
        rec(11, 10, "worker"),
        rec(12, 11, "grandchild"),
        krec(13, 10, "kthread"),
        rec(20, 1, "other"),
    ];
    let nodes = discover_descendants(&table, 10);
    let pids = pids_of(&nodes);
    assert_eq!(pids, vec![11, 12]);
    assert_eq!(nodes[0].depth, 1);
    assert_eq!(nodes[1].depth, 2);
    // a root the snapshot does not list yields nothing
    assert!(discover_descendants(&table, 999).is_empty());
}

#[test]
fn leaf_first_orders_deepest_layer_first() {
    let table = vec![
        rec(1, 0, "init"),
        rec(10, 1, "app"),
        rec(11, 10, "a"),
        rec(12, 10, "b"),
        rec(13, 11, "c"),
    ];
    let targets = select_targets(&table, 10, "");
    assert_eq!(pids_of(&targets), vec![10, 11, 12, 13]);
    assert_eq!(leaf_first(&targets), vec![13, 11, 12, 10]);
}

#[test]
fn pattern_narrows_targets() {
    let table = vec![
        rec(1, 0, "init"),
        rec(10, 1, "app"),
        rec(11, 10, "app-helper"),
        rec(12, 10, "app-gpu"),
    ];
    let narrowed = select_targets(&table, 10, "helper$");
    assert_eq!(pids_of(&narrowed), vec![11]);
    // an invalid pattern selects nothing
    let none = select_targets(&table, 10, "(unclosed");
    assert!(none.is_empty());
    // filtering directly respects the regular expression
    let nodes = discover_descendants(&table, 10);
    let kept = filter_by_pattern(&nodes, "gpu");
    assert_eq!(pids_of(&kept), vec![12]);
}

#[test]
fn queue_sheds_oldest_tick_on_overflow() {
    let mut q = EventQueue::new(2);
    assert!(q.push(Event::Tick { now: 1, table: Vec::new() }).is_none());
    assert!(q.push(Event::Closed { wid: 7, now: 1 }).is_none());
    // full: the tick makes room for the new event
    assert!(q.push(Event::Closed { wid: 8, now: 2 }).is_none());
    assert_eq!(q.len(), 2);
    match q.pop() {
        Some(Event::Closed { wid, .. }) => assert_eq!(wid, 7),
        _ => panic!("expected the close event for wid 7"),
    }
    match q.pop() {
        Some(Event::Closed { wid, .. }) => assert_eq!(wid, 8),
        _ => panic!("expected the close event for wid 8"),
    }
    assert!(q.pop().is_none());
}

#[test]
fn queue_coalesces_and_rejects_when_tick_free() {
    let mut q = EventQueue::new(1);
    assert!(q.push(Event::Closed { wid: 1, now: 0 }).is_none());
    // a tick offered to a full, tick-free queue is coalesced away
    assert!(q.push(Event::Tick { now: 1, table: Vec::new() }).is_none());
    assert_eq!(q.len(), 1);
    // an event that is not a tick comes back
    match q.push(Event::Closed { wid: 2, now: 1 }) {
        Some(Event::Closed { wid, .. }) => assert_eq!(wid, 2),
        _ => panic!("expected the event back"),
    }
}

#[test]
fn stale_events_after_close_are_ignored() {
    let mut s = Scheduler::new(Settings::default(), Vec::new());
    let _ = s.handle_opened(1, "a".to_string(), String::new(), 100, 0);
    let _ = s.handle_closed(1, 1);
    assert!(s.registry.windows.is_empty());
    let _ = s.handle_opened(1, "a".to_string(), String::new(), 100, 2);
    assert!(s.registry.windows.is_empty());
    let _ = s.handle_focus(Some(1), 3);
    assert_eq!(s.focused, None);
}

#[test]
fn early_focus_is_buffered_until_the_open_event() {
    let mut s = Scheduler::new(Settings::default(), Vec::new());
    let _ = s.handle_focus(Some(5), 0);
    assert_eq!(s.pending_focus, Some(5));
    let _ = s.handle_opened(5, "term".to_string(), String::new(), 100, 1);
    assert_eq!(s.pending_focus, None);
    assert_eq!(s.registry.windows[0].state, WindowState::Active);
    assert_eq!(s.focused, Some(5));
}

#[test]
fn duplicate_open_overwrites_the_stale_entry() {
    let mut s = Scheduler::new(Settings::default(), Vec::new());
    let _ = s.handle_opened(1, "a".to_string(), String::new(), 100, 0);
    let _ = s.handle_opened(1, "b".to_string(), String::new(), 200, 1);
    assert_eq!(s.registry.windows.len(), 1);
    assert_eq!(s.registry.windows[0].class, "b");
    assert_eq!(s.registry.windows[0].root_pid, 200);
}

#[test]
fn power_cap_applied_once_per_flip() {
    let mut settings = Settings::default();
    settings.downclock_on_battery = 1200;
    let mut s = Scheduler::new(settings, Vec::new());
    let acts = s.handle_power(true, 0);
    assert_eq!(acts[0], Action::CapFrequency { mhz: 1200 });
    // no flip, no action
    let acts = s.handle_power(true, 1);
    assert!(acts.is_empty());
    let acts = s.handle_power(false, 2);
    assert_eq!(acts[0], Action::UncapFrequency);
}

#[test]
fn on_mains_an_overdue_window_is_parked_not_frozen() {
    let table = vec![rec(1, 0, "init"), rec(100, 1, "app")];
    let mut s = Scheduler::new(Settings::default(), Vec::new());
    let _ = s.handle_opened(1, "app".to_string(), String::new(), 100, 0);
    let mut all: Vec<Action> = Vec::new();
    for t in 1..=30 {
        all.extend(s.handle_tick(t, &table));
    }
    assert!(matches!(
        s.registry.windows[0].state,
        WindowState::PendingSuspend { .. }
    ));
    assert!(all.is_empty());
}

#[test]
fn later_discovery_wins_a_contested_pid() {
    let mut s = Scheduler::new(Settings::default(), Vec::new());
    let _ = s.handle_power(true, 0);
    let before = vec![rec(1, 0, "init"), rec(100, 1, "a"), rec(101, 100, "shared"), rec(200, 1, "b")];
    let _ = s.handle_opened(1, "a".to_string(), String::new(), 100, 0);
    let _ = s.handle_tick(10, &before);
    assert_eq!(s.registry.windows[0].subtree, vec![100, 101]);
    // the shared helper re-parents under the second window's root
    let after = vec![rec(1, 0, "init"), rec(100, 1, "a"), rec(101, 200, "shared"), rec(200, 1, "b")];
    let _ = s.handle_opened(2, "b".to_string(), String::new(), 200, 11);
    let acts = s.handle_tick(25, &after);
    assert_eq!(s.registry.windows[1].subtree, vec![200, 101]);
    assert_eq!(s.registry.windows[0].state, WindowState::Active);
    assert!(s.registry.windows[0].subtree.is_empty());
    // the evicted window's frozen pids were resumed
    assert!(acts.iter().any(|a| matches!(a, Action::Thaw { pids } if *pids == vec![100, 101])));
}

#[test]
fn windows_without_a_root_pid_are_never_suspended() {
    let table = vec![rec(1, 0, "init")];
    let mut s = Scheduler::new(Settings::default(), Vec::new());
    let _ = s.handle_power(true, 0);
    let _ = s.handle_opened(1, "csd".to_string(), String::new(), 0, 0);
    let mut all: Vec<Action> = Vec::new();
    for t in 1..=30 {
        all.extend(s.handle_tick(t, &table));
    }
    assert_eq!(s.registry.windows[0].state, WindowState::Active);
    assert!(all.is_empty());
}
