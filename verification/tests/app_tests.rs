use system_monitor::app::{
    aggregate_network, memory_usage_permyriad, normalize_disks, App, DiskSample, NetworkSample,
    Snapshot, SystemInfo,
};
use system_monitor::table::{ProcessInfo, SortBy};

fn proc(pid: u32, name: &str, cpu: Option<u64>) -> ProcessInfo {
    ProcessInfo {
        pid,
        name: name.to_string(),
        cpu_usage: cpu,
        memory: 0,
        status: "Sleep".to_string(),
        start_time: 0,
    }
}

fn facts() -> SystemInfo {
    SystemInfo {
        cpu_count: 8,
        total_memory: 4000,
        used_memory: 1000,
        total_swap: 2000,
        used_swap: 0,
        system_name: "linux".to_string(),
        kernel_version: "6.1".to_string(),
        os_version: "1.0".to_string(),
        host_name: "box".to_string(),
        uptime: 12345,
    }
}

fn snapshot() -> Snapshot {
    Snapshot {
        processes: vec![proc(1, "a", Some(250)), proc(2, "b", Some(750))],
        cpu_usage: 1234,
        used_memory: 1000,
        total_memory: 4000,
        interfaces: vec![
            NetworkSample { received: 100, transmitted: 200 },
            NetworkSample { received: 300, transmitted: 400 },
        ],
        disks: vec![DiskSample {
            name: "root".to_string(),
            total_bytes: 100,
            available_bytes: 30,
        }],
        info: facts(),
    }
}

#[test]
fn tab_cycle_returns_after_four_steps() {
    for start in 0..4usize {
        let mut app = App::new();
        for _ in 0..start {
            app.next_tab();
        }
        assert_eq!(app.current_tab, start);
        for _ in 0..4 {
            app.next_tab();
        }
        assert_eq!(app.current_tab, start);
        for _ in 0..4 {
            app.previous_tab();
        }
        assert_eq!(app.current_tab, start);
    }
}

#[test]
fn tab_steps_wrap_both_ways() {
    let mut app = App::new();
    assert_eq!(app.current_tab, 0);
    app.previous_tab();
    assert_eq!(app.current_tab, 3);
    app.next_tab();
    assert_eq!(app.current_tab, 0);
}

#[test]
fn selection_cycle_returns_after_row_count_steps() {
    for start in 0..5usize {
        let mut app = App::new();
        app.set_processes(vec![
            proc(1, "a", None),
            proc(2, "b", None),
            proc(3, "c", None),
            proc(4, "d", None),
            proc(5, "e", None),
        ]);
        for _ in 0..start {
            app.next_process();
        }
        assert_eq!(app.selected_process, start);
        for _ in 0..5 {
            app.next_process();
        }
        assert_eq!(app.selected_process, start);
    }
}

#[test]
fn selection_wraps_backward_to_last_row() {
    let mut app = App::new();
    app.set_processes(vec![proc(1, "a", None), proc(2, "b", None), proc(3, "c", None)]);
    assert_eq!(app.selected_process, 0);
    app.previous_process();
    assert_eq!(app.selected_process, 2);
}

#[test]
fn sort_key_cycle_returns_after_four_toggles() {
    let mut app = App::new();
    assert_eq!(app.sort_by, SortBy::Cpu);
    let before = app.sort_ascending;
    app.toggle_sort();
    assert_eq!(app.sort_by, SortBy::Memory);
    app.toggle_sort();
    assert_eq!(app.sort_by, SortBy::Pid);
    app.toggle_sort();
    assert_eq!(app.sort_by, SortBy::Name);
    app.toggle_sort();
    assert_eq!(app.sort_by, SortBy::Cpu);
    assert_eq!(app.sort_ascending, before);
}

#[test]
fn toggling_never_touches_direction() {
    let mut app = App::new();
    app.sort_by(SortBy::Pid, true);
    for _ in 0..4 {
        app.toggle_sort();
        assert!(app.sort_ascending);
    }
    assert_eq!(app.sort_by, SortBy::Pid);
}

#[test]
fn kill_resolves_the_selected_pid() {
    let mut app = App::new();
    assert_eq!(app.kill_selected_process(), None);
    app.set_processes(vec![proc(10, "a", None), proc(20, "b", None)]);
    app.sort_by(SortBy::Pid, true);
    app.next_process();
    assert_eq!(app.kill_selected_process(), Some(20));
}

#[test]
fn update_runs_the_whole_refresh_sequence() {
    let mut app = App::new();
    app.update(snapshot());
    // table sorted by the default key: CPU descending
    let got: Vec<u32> = app.processes.iter().map(|p| p.pid).collect();
    assert_eq!(got, vec![2, 1]);
    assert_eq!(app.selected_process, 0);
    // one sample appended per series
    assert_eq!(app.cpu_history.as_slice(), &[1234]);
    // 1000 / 4000 = 25.00%
    assert_eq!(app.memory_history.as_slice(), &[2500]);
    assert_eq!(app.network_history.latest(), Some(NetworkSample {
        received: 400,
        transmitted: 600,
    }));
    // disk normalized: used = total - available
    assert_eq!(app.disk_usage.len(), 1);
    assert_eq!(app.disk_usage[0].name, "root");
    assert_eq!(app.disk_usage[0].used_bytes, 70);
    assert_eq!(app.disk_usage[0].total_bytes, 100);
    let info = app.get_system_info();
    assert_eq!(info.host_name, "box");
    assert_eq!(info.cpu_count, 8);
    assert_eq!(info.uptime, 12345);
}

#[test]
fn refresh_appends_like_a_tick() {
    let mut app = App::new();
    app.update(snapshot());
    app.refresh(snapshot());
    assert_eq!(app.cpu_history.len(), 2);
    assert_eq!(app.memory_history.len(), 2);
    assert_eq!(app.network_history.len(), 2);
}

#[test]
fn empty_snapshot_yields_empty_model() {
    let mut app = App::new();
    app.update(Snapshot {
        processes: Vec::new(),
        cpu_usage: 0,
        used_memory: 0,
        total_memory: 0,
        interfaces: Vec::new(),
        disks: Vec::new(),
        info: facts(),
    });
    assert_eq!(app.processes.len(), 0);
    assert_eq!(app.selected_process, 0);
    assert_eq!(app.network_history.latest(), Some(NetworkSample {
        received: 0,
        transmitted: 0,
    }));
    assert_eq!(app.memory_history.as_slice(), &[0]);
    assert_eq!(app.disk_usage.len(), 0);
}

#[test]
fn network_aggregation_sums_all_interfaces() {
    let totals = aggregate_network(&vec![
        NetworkSample { received: 1, transmitted: 2 },
        NetworkSample { received: 10, transmitted: 20 },
        NetworkSample { received: 100, transmitted: 200 },
    ]);
    assert_eq!(totals, NetworkSample { received: 111, transmitted: 222 });
    assert_eq!(aggregate_network(&Vec::new()), NetworkSample { received: 0, transmitted: 0 });
}

#[test]
fn network_aggregation_saturates() {
    let totals = aggregate_network(&vec![
        NetworkSample { received: u64::MAX - 1, transmitted: 0 },
        NetworkSample { received: 10, transmitted: 5 },
    ]);
    assert_eq!(totals, NetworkSample { received: u64::MAX, transmitted: 5 });
}

#[test]
fn disk_with_more_available_than_total_shows_zero_used() {
    let rows = normalize_disks(&vec![DiskSample {
        name: "odd".to_string(),
        total_bytes: 10,
        available_bytes: 20,
    }]);
    assert_eq!(rows[0].used_bytes, 0);
    assert_eq!(rows[0].total_bytes, 10);
}

#[test]
fn memory_share_in_hundredths_of_percent() {
    assert_eq!(memory_usage_permyriad(1, 4), 2500);
    assert_eq!(memory_usage_permyriad(0, 4), 0);
    assert_eq!(memory_usage_permyriad(4, 4), 10000);
    assert_eq!(memory_usage_permyriad(5, 0), 0);
}
