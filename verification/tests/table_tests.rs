use system_monitor::app::App;
use system_monitor::table::{sort_records, ProcessInfo, SortBy};

fn proc(pid: u32, name: &str, cpu: Option<u64>, memory: u64) -> ProcessInfo {
    ProcessInfo {
        pid,
        name: name.to_string(),
        cpu_usage: cpu,
        memory,
        status: "Run".to_string(),
        start_time: 0,
    }
}

fn pids(app: &App) -> Vec<u32> {
    app.processes.iter().map(|p| p.pid).collect()
}

#[test]
fn cpu_descending_is_stable_for_ties() {
    let mut app = App::new();
    assert_eq!(app.sort_by, SortBy::Cpu);
    assert!(!app.sort_ascending);
    // cpu_percent 5.00, 5.00, 1.00 in hundredths
    app.set_processes(vec![
        proc(1, "first", Some(500), 10),
        proc(2, "second", Some(500), 20),
        proc(3, "third", Some(100), 30),
    ]);
    assert_eq!(pids(&app), vec![1, 2, 3]);
}

#[test]
fn sort_by_pid_both_directions() {
    let mut app = App::new();
    app.set_processes(vec![proc(3, "c", None, 0), proc(1, "a", None, 0), proc(2, "b", None, 0)]);
    app.sort_by(SortBy::Pid, true);
    assert_eq!(pids(&app), vec![1, 2, 3]);
    app.sort_by(SortBy::Pid, false);
    assert_eq!(pids(&app), vec![3, 2, 1]);
}

#[test]
fn sort_by_memory_both_directions() {
    let mut app = App::new();
    app.set_processes(vec![
        proc(1, "a", None, 300),
        proc(2, "b", None, 100),
        proc(3, "c", None, 200),
    ]);
    app.sort_by(SortBy::Memory, true);
    assert_eq!(pids(&app), vec![2, 3, 1]);
    app.sort_by(SortBy::Memory, false);
    assert_eq!(pids(&app), vec![1, 3, 2]);
}

#[test]
fn sort_by_name_is_byte_order() {
    let mut app = App::new();
    app.set_processes(vec![
        proc(1, "gamma", None, 0),
        proc(2, "Beta", None, 0),
        proc(3, "alpha", None, 0),
    ]);
    app.sort_by(SortBy::Name, true);
    // Capital letters sort before lower-case ones in byte order.
    assert_eq!(pids(&app), vec![2, 3, 1]);
}

#[test]
fn opposite_directions_reverse_without_ties() {
    let mut app = App::new();
    app.set_processes(vec![
        proc(1, "a", Some(400), 0),
        proc(2, "b", Some(100), 0),
        proc(3, "c", Some(300), 0),
        proc(4, "d", Some(200), 0),
    ]);
    app.sort_by(SortBy::Cpu, true);
    let ascending = pids(&app);
    app.sort_by(SortBy::Cpu, false);
    let mut descending = pids(&app);
    descending.reverse();
    assert_eq!(ascending, descending);
    assert_eq!(ascending, vec![2, 4, 3, 1]);
}

#[test]
fn unknown_cpu_share_never_moves() {
    let mut records = vec![proc(1, "a", Some(100), 0), proc(2, "b", None, 0), proc(
        3,
        "c",
        Some(500),
        0,
    )];
    sort_records(&mut records, SortBy::Cpu, false);
    let got: Vec<u32> = records.iter().map(|p| p.pid).collect();
    // The unknown share ties with both neighbours, so nothing may cross it.
    assert_eq!(got, vec![1, 2, 3]);
}

#[test]
fn memory_ties_keep_their_relative_order() {
    let mut records = vec![
        proc(1, "a", None, 100),
        proc(2, "b", None, 50),
        proc(3, "c", None, 100),
        proc(4, "d", None, 50),
    ];
    sort_records(&mut records, SortBy::Memory, true);
    let got: Vec<u32> = records.iter().map(|p| p.pid).collect();
    assert_eq!(got, vec![2, 4, 1, 3]);
}

#[test]
fn name_ties_keep_their_relative_order() {
    let mut records = vec![
        proc(1, "same", Some(100), 0),
        proc(2, "other", Some(200), 0),
        proc(3, "same", Some(300), 0),
    ];
    sort_records(&mut records, SortBy::Name, true);
    let got: Vec<u32> = records.iter().map(|p| p.pid).collect();
    assert_eq!(got, vec![2, 1, 3]);
}

#[test]
fn empty_table_keeps_selection_at_zero() {
    let mut app = App::new();
    app.set_processes(Vec::new());
    assert_eq!(app.selected_process, 0);
    assert_eq!(app.processes.len(), 0);
    app.next_process();
    assert_eq!(app.selected_process, 0);
    app.previous_process();
    assert_eq!(app.selected_process, 0);
}

#[test]
fn selection_is_clamped_when_table_shrinks() {
    let mut app = App::new();
    app.set_processes(vec![
        proc(1, "a", None, 0),
        proc(2, "b", None, 0),
        proc(3, "c", None, 0),
        proc(4, "d", None, 0),
        proc(5, "e", None, 0),
    ]);
    app.next_process();
    app.next_process();
    app.next_process();
    app.next_process();
    assert_eq!(app.selected_process, 4);
    app.set_processes(vec![proc(6, "f", None, 0), proc(7, "g", None, 0)]);
    assert_eq!(app.selected_process, 1);
}

#[test]
fn selection_is_kept_when_still_in_range() {
    let mut app = App::new();
    app.set_processes(vec![proc(1, "a", None, 0), proc(2, "b", None, 0), proc(3, "c", None, 0)]);
    app.next_process();
    assert_eq!(app.selected_process, 1);
    app.set_processes(vec![proc(4, "d", None, 0), proc(5, "e", None, 0), proc(6, "f", None, 0)]);
    assert_eq!(app.selected_process, 1);
}
