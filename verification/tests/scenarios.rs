use hyprsuspender::config::{Preset, Settings};
use hyprsuspender::process::ProcRecord;
use hyprsuspender::registry::WindowState;
use hyprsuspender::scheduler::{Action, Scheduler};

fn rec(pid: u32, ppid: u32, name: &str) -> ProcRecord {
    ProcRecord { pid, ppid, kernel_thread: false, name: name.to_string() }
}

fn firefox_table() -> Vec<ProcRecord> {
    vec![
        rec(1, 0, "init"),
        rec(1000, 1, "firefox"),
        rec(1001, 1000, "firefox-helper"),
        rec(1002, 1000, "firefox-gpu"),
    ]
}

fn freezes(acts: &[Action]) -> Vec<Vec<u32>> {
    acts.iter()
        .filter_map(|a| match a {
            Action::Freeze { pids } => Some(pids.clone()),
            _ => None,
        })
        .collect()
}

fn thaws(acts: &[Action]) -> Vec<Vec<u32>> {
    acts.iter()
        .filter_map(|a| match a {
            Action::Thaw { pids } => Some(pids.clone()),
            _ => None,
        })
        .collect()
}

#[test]
fn basic_cycle() {
    let mut s = Scheduler::new(Settings::default(), Vec::new());
    let _ = s.handle_power(true, 0);
    let _ = s.handle_opened(1, "firefox".to_string(), "tab".to_string(), 1000, 0);
    let _ = s.handle_focus(Some(2), 0);
    assert_eq!(s.registry.windows[0].state, WindowState::PendingSuspend { deadline: 10 });

    let mut stops: Vec<Vec<u32>> = Vec::new();
    for t in 1..=10 {
        let acts = s.handle_tick(t, &firefox_table());
        stops.extend(freezes(&acts));
    }
    assert_eq!(s.registry.windows[0].state, WindowState::Suspended { next_thaw: 70 });
    // leaves first: the children in discovery order, then the root
    assert_eq!(stops, vec![vec![1001, 1002, 1000]]);

    let mut conts: Vec<Vec<u32>> = Vec::new();
    for t in 11..=70 {
        let acts = s.handle_tick(t, &firefox_table());
        conts.extend(thaws(&acts));
    }
    assert!(matches!(s.registry.windows[0].state, WindowState::Thawing { .. }));
    // root first when thawing
    assert_eq!(conts, vec![vec![1000, 1001, 1002]]);

    for t in 71..=75 {
        let _ = s.handle_tick(t, &firefox_table());
    }
    assert!(matches!(s.registry.windows[0].state, WindowState::Suspended { .. }));
}

#[test]
fn focus_rescue() {
    let mut s = Scheduler::new(Settings::default(), Vec::new());
    let _ = s.handle_power(true, 0);
    let _ = s.handle_opened(1, "firefox".to_string(), String::new(), 1000, 0);
    assert!(matches!(
        s.registry.windows[0].state,
        WindowState::PendingSuspend { .. }
    ));
    let mut all_acts: Vec<Action> = Vec::new();
    for t in 1..=4 {
        all_acts.extend(s.handle_tick(t, &firefox_table()));
    }
    all_acts.extend(s.handle_focus(Some(1), 5));
    for t in 6..=10 {
        all_acts.extend(s.handle_tick(t, &firefox_table()));
    }
    assert_eq!(s.registry.windows[0].state, WindowState::Active);
    assert!(freezes(&all_acts).is_empty());
}

#[test]
fn ac_plug_in_wakes_everything() {
    let mut s = Scheduler::new(Settings::default(), Vec::new());
    let _ = s.handle_power(true, 0);
    let table = vec![rec(1, 0, "init"), rec(100, 1, "a"), rec(200, 1, "b"), rec(300, 1, "c")];
    let _ = s.handle_opened(1, "a".to_string(), String::new(), 100, 0);
    let _ = s.handle_opened(2, "b".to_string(), String::new(), 200, 0);
    let _ = s.handle_opened(3, "c".to_string(), String::new(), 300, 0);
    let _ = s.handle_tick(10, &table);
    for w in &s.registry.windows {
        assert!(matches!(w.state, WindowState::Suspended { .. }));
    }
    let acts = s.handle_power(false, 11);
    for w in &s.registry.windows {
        assert_eq!(w.state, WindowState::Active);
    }
    let conts = thaws(&acts);
    assert_eq!(conts.len(), 3);
    assert!(conts.contains(&vec![100]));
    assert!(conts.contains(&vec![200]));
    assert!(conts.contains(&vec![300]));
}

#[test]
fn preset_match() {
    let presets = vec![Preset {
        name: "slack".to_string(),
        class_substring: "Slack".to_string(),
        subtree_pattern: String::new(),
        suspend_delay: 30,
    }];
    let mut s = Scheduler::new(Settings::default(), presets);
    let _ = s.handle_power(true, 0);
    let table = vec![rec(1, 0, "init"), rec(500, 1, "slack")];
    let _ = s.handle_focus(Some(1), 0);
    let _ = s.handle_opened(1, "Slack".to_string(), String::new(), 500, 0);
    assert_eq!(s.registry.windows[0].state, WindowState::Active);
    let _ = s.handle_focus(Some(9), 0);
    assert_eq!(s.registry.windows[0].state, WindowState::PendingSuspend { deadline: 30 });
    for t in 1..=15 {
        let _ = s.handle_tick(t, &table);
    }
    assert_eq!(s.registry.windows[0].state, WindowState::PendingSuspend { deadline: 30 });
    for t in 16..=30 {
        let _ = s.handle_tick(t, &table);
    }
    assert!(matches!(s.registry.windows[0].state, WindowState::Suspended { .. }));
}

#[test]
fn close_while_suspended() {
    let mut s = Scheduler::new(Settings::default(), Vec::new());
    let _ = s.handle_power(true, 0);
    let _ = s.handle_opened(1, "firefox".to_string(), String::new(), 1000, 90);
    let _ = s.handle_tick(100, &firefox_table());
    assert!(matches!(s.registry.windows[0].state, WindowState::Suspended { .. }));
    let acts = s.handle_closed(1, 105);
    let conts = thaws(&acts);
    assert_eq!(conts, vec![vec![1000, 1001, 1002]]);
    assert!(s.registry.windows.is_empty());
    let acts = s.handle_tick(106, &firefox_table());
    assert!(acts.is_empty());
    assert!(s.registry.windows.is_empty());
}

#[test]
fn dry_run() {
    let mut settings = Settings::default();
    settings.send_signals = false;
    let mut s = Scheduler::new(settings, Vec::new());
    let mut all_acts: Vec<Action> = Vec::new();
    all_acts.extend(s.handle_power(true, 0));
    all_acts.extend(s.handle_opened(1, "firefox".to_string(), "tab".to_string(), 1000, 0));
    all_acts.extend(s.handle_focus(Some(2), 0));
    for t in 1..=10 {
        all_acts.extend(s.handle_tick(t, &firefox_table()));
    }
    // identical states at identical times as in the signalling run
    assert_eq!(s.registry.windows[0].state, WindowState::Suspended { next_thaw: 70 });
    for t in 11..=70 {
        all_acts.extend(s.handle_tick(t, &firefox_table()));
    }
    assert!(matches!(s.registry.windows[0].state, WindowState::Thawing { .. }));
    all_acts.extend(s.shutdown(71));
    // but the signal issuer is never invoked
    assert!(freezes(&all_acts).is_empty());
    assert!(thaws(&all_acts).is_empty());
}

#[test]
fn shutdown_thaws_every_frozen_subtree() {
    let mut s = Scheduler::new(Settings::default(), Vec::new());
    let _ = s.handle_power(true, 0);
    let _ = s.handle_opened(1, "firefox".to_string(), String::new(), 1000, 0);
    let _ = s.handle_tick(10, &firefox_table());
    assert!(matches!(s.registry.windows[0].state, WindowState::Suspended { .. }));
    let acts = s.shutdown(11);
    assert_eq!(thaws(&acts), vec![vec![1000, 1001, 1002]]);
    assert_eq!(s.registry.windows[0].state, WindowState::Active);
    assert!(s.registry.windows[0].subtree.is_empty());
}
