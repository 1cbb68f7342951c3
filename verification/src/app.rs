//! The monitor's long-lived model: the sorted process table with its
//! selection, the tab navigator, the three rolling history series, the
//! normalized disk rows and the latest host facts. One raw snapshot of
//! plain values goes in per refresh; the rendering layer only reads.

use vstd::prelude::*;
use vstd::arithmetic::div_mod::{lemma_add_mod_noop_right, lemma_mod_add_multiples_vanish,
    lemma_small_mod};
use crate::series::{recent, BoundedSeries};
use crate::table::{ordered, sort_records, stable_sorted, ProcessInfo, SortBy};

verus! {

/// Samples retained by each history series.
pub const HISTORY_CAPACITY: usize = 60;

/// Number of tabs: Overview, Processes, Network, Disks.
pub const TAB_COUNT: usize = 4;

/// Cumulative bytes received and transmitted, summed over all interfaces
/// at one sample instant.
#[derive(Debug, Clone, Copy, PartialEq, Eq, Structural)]
pub struct NetworkSample {
    pub received: u64,
    pub transmitted: u64,
}

/// One disk as the provider reports it: its name, its size, and how much
/// of it is still available.
#[derive(Debug, Clone)]
pub struct DiskSample {
    pub name: String,
    pub total_bytes: u64,
    pub available_bytes: u64,
}

/// One normalized disk row: `used_bytes` is what the provider's total
/// minus available space leaves, never more than `total_bytes`.
#[derive(Debug, Clone)]
pub struct DiskUsage {
    pub name: String,
    pub used_bytes: u64,
    pub total_bytes: u64,
}

/// Static and slowly changing host facts, recomputed per snapshot.
#[derive(Debug, Clone)]
pub struct SystemInfo {
    pub cpu_count: usize,
    pub total_memory: u64,
    pub used_memory: u64,
    pub total_swap: u64,
    pub used_swap: u64,
    pub system_name: String,
    pub kernel_version: String,
    pub os_version: String,
    pub host_name: String,
    pub uptime: u64,
}

/// One raw, unordered host snapshot, reduced to plain values. CPU shares
/// are in hundredths of a percent.
#[derive(Debug, Clone)]
pub struct Snapshot {
    pub processes: Vec<ProcessInfo>,
    /// Global CPU usage in hundredths of a percent.
    pub cpu_usage: u64,
    pub used_memory: u64,
    pub total_memory: u64,
    pub interfaces: Vec<NetworkSample>,
    pub disks: Vec<DiskSample>,
    pub info: SystemInfo,
}

/// Addition that stops at the largest representable counter value.
pub open spec fn sat_add_u64(a: u64, b: u64) -> u64 {
    if a + b > u64::MAX {
        u64::MAX
    } else {
        (a + b) as u64
    }
}

/// The aggregated network counters of a snapshot: the saturating sum of
/// every interface's counters; an empty interface set yields (0, 0).
pub open spec fn net_total(samples: Seq<NetworkSample>) -> NetworkSample
    decreases samples.len(),
{
    if samples.len() == 0 {
        NetworkSample { received: 0, transmitted: 0 }
    } else {
        let rest = net_total(samples.drop_last());
        NetworkSample {
            received: sat_add_u64(rest.received, samples.last().received),
            transmitted: sat_add_u64(rest.transmitted, samples.last().transmitted),
        }
    }
}

/// One disk row normalized: used space is total minus available, or zero
/// if the provider reports more available than total.
pub open spec fn disk_norm(d: DiskSample) -> DiskUsage {
    DiskUsage {
        name: d.name,
        used_bytes: if d.available_bytes <= d.total_bytes {
            (d.total_bytes - d.available_bytes) as u64
        } else {
            0
        },
        total_bytes: d.total_bytes,
    }
}

/// The whole disk list normalized, provider order preserved.
pub open spec fn disks_norm(s: Seq<DiskSample>) -> Seq<DiskUsage> {
    s.map_values(|d: DiskSample| disk_norm(d))
}

/// Memory usage in hundredths of a percent of total memory, zero when no
/// total is reported, capped at the largest representable value.
pub open spec fn memory_permyriad(used: u64, total: u64) -> u64 {
    if total == 0 {
        0
    } else if used * 10000 / (total as int) > u64::MAX {
        u64::MAX
    } else {
        (used * 10000 / (total as int)) as u64
    }
}

/// Where the selection lands after the table is rebuilt with `len` rows:
/// kept if still in range, clamped to the last row if not, zero if empty.
pub open spec fn clamp_index(sel: int, len: int) -> int {
    if len == 0 {
        0
    } else if sel < len {
        sel
    } else {
        len - 1
    }
}

/// One forward step of the selection: wraps past the last row.
pub open spec fn step_forward(sel: int, len: int) -> int {
    if len == 0 {
        sel
    } else {
        (sel + 1) % len
    }
}

/// One backward step of the selection: wraps from the first row to the last.
pub open spec fn step_back(sel: int, len: int) -> int {
    if len == 0 {
        sel
    } else if sel > 0 {
        sel - 1
    } else {
        len - 1
    }
}

/// The sort key after one quick-toggle: identifier, name, CPU, memory,
/// and around again. The direction is never touched by cycling.
pub open spec fn next_key(k: SortBy) -> SortBy {
    match k {
        SortBy::Pid => SortBy::Name,
        SortBy::Name => SortBy::Cpu,
        SortBy::Cpu => SortBy::Memory,
        SortBy::Memory => SortBy::Pid,
    }
}

/// The tab after one forward step.
pub open spec fn tab_next(t: int) -> int {
    (t + 1) % (TAB_COUNT as int)
}

/// The tab after one backward step.
pub open spec fn tab_prev(t: int) -> int {
    (t + (TAB_COUNT as int) - 1) % (TAB_COUNT as int)
}

/// Sums the counters of every interface, saturating at the largest
/// representable value; an empty set yields (0, 0).
pub fn aggregate_network(interfaces: &Vec<NetworkSample>) -> (t: NetworkSample)
    ensures
        t == net_total(interfaces@),
{
    let mut received: u64 = 0;
    let mut transmitted: u64 = 0;
    let mut i: usize = 0;
    while i < interfaces.len()
        invariant
            0 <= i <= interfaces@.len(),
            (NetworkSample { received, transmitted }) == net_total(interfaces@.subrange(0, i as int)),
        decreases interfaces@.len() - i,
    {
        let s = interfaces[i];
        received = if received > u64::MAX - s.received {
            u64::MAX
        } else {
            received + s.received
        };
        transmitted = if transmitted > u64::MAX - s.transmitted {
            u64::MAX
        } else {
            transmitted + s.transmitted
        };
        proof {
            let pre = interfaces@.subrange(0, i as int);
            let cur = interfaces@.subrange(0, i + 1);
            assert(cur.drop_last() =~= pre);
            assert(cur.last() == interfaces@[i as int]);
        }
        i = i + 1;
    }
    proof {
        assert(interfaces@.subrange(0, interfaces@.len() as int) =~= interfaces@);
    }
    NetworkSample { received, transmitted }
}

/// Normalizes the provider's disk list in order, skipping none.
pub fn normalize_disks(disks: &Vec<DiskSample>) -> (r: Vec<DiskUsage>)
    ensures
        r@ == disks_norm(disks@),
{
    let mut out: Vec<DiskUsage> = Vec::new();
    let mut i: usize = 0;
    while i < disks.len()
        invariant
            0 <= i <= disks@.len(),
            out@ == disks_norm(disks@.subrange(0, i as int)),
        decreases disks@.len() - i,
    {
        let total = disks[i].total_bytes;
        let available = disks[i].available_bytes;
        let used = if available <= total {
            total - available
        } else {
            0
        };
        out.push(DiskUsage { name: disks[i].name.clone(), used_bytes: used, total_bytes: total });
        proof {
            assert(out@.last() == disk_norm(disks@[i as int]));
            assert(out@ =~= disks_norm(disks@.subrange(0, i + 1)));
        }
        i = i + 1;
    }
    proof {
        assert(disks@.subrange(0, disks@.len() as int) =~= disks@);
    }
    out
}

/// Memory usage in hundredths of a percent of total memory.
pub fn memory_usage_permyriad(used: u64, total: u64) -> (r: u64)
    ensures
        r == memory_permyriad(used, total),
{
    if total == 0 {
        0
    } else {
        let q = (used as u128) * 10000 / (total as u128);
        if q > u64::MAX as u128 {
            u64::MAX
        } else {
            q as u64
        }
    }
}

/// The monitor's model. Everything the rendering layer shows lives here;
/// one refresh rebuilds the table wholesale and appends one sample to each
/// history series.
pub struct App {
    /// The process table, ordered by the active key and direction.
    pub processes: Vec<ProcessInfo>,
    /// Position of the highlighted row; 0 when the table is empty.
    pub selected_process: usize,
    /// The active tab, always below `TAB_COUNT`.
    pub current_tab: usize,
    pub sort_by: SortBy,
    pub sort_ascending: bool,
    /// Global CPU usage history, hundredths of a percent per tick.
    pub cpu_history: BoundedSeries<u64>,
    /// Memory usage history, hundredths of a percent per tick.
    pub memory_history: BoundedSeries<u64>,
    /// Aggregated network counter history, one sample per tick.
    pub network_history: BoundedSeries<NetworkSample>,
    /// Normalized disk rows of the latest snapshot, provider order.
    pub disk_usage: Vec<DiskUsage>,
    /// Host facts of the latest snapshot.
    pub info: SystemInfo,
}

/// The table and its sort state are unchanged between `b` and `a`.
pub open spec fn same_table(a: App, b: App) -> bool {
    &&& a.processes@ == b.processes@
    &&& a.selected_process == b.selected_process
    &&& a.sort_by == b.sort_by
    &&& a.sort_ascending == b.sort_ascending
}

/// The histories, disk rows and host facts are unchanged between `b` and `a`.
pub open spec fn same_samples(a: App, b: App) -> bool {
    &&& a.cpu_history == b.cpu_history
    &&& a.memory_history == b.memory_history
    &&& a.network_history == b.network_history
    &&& a.disk_usage@ == b.disk_usage@
    &&& a.info == b.info
}

impl App {
    /// The model's invariant: the tab is one of the four, the selection is
    /// in range whenever the table is non-empty (and pinned to 0 when it
    /// is empty), and each history series is a well-formed buffer of the
    /// fixed capacity.
    pub open spec fn wf(&self) -> bool {
        &&& self.current_tab < TAB_COUNT
        &&& if self.processes@.len() == 0 {
            self.selected_process == 0
        } else {
            (self.selected_process as int) < self.processes@.len()
        }
        &&& self.cpu_history.wf() && self.cpu_history.spec_capacity() == HISTORY_CAPACITY
        &&& self.memory_history.wf() && self.memory_history.spec_capacity() == HISTORY_CAPACITY
        &&& self.network_history.wf() && self.network_history.spec_capacity() == HISTORY_CAPACITY
    }

    /// An empty model: no rows, no samples, Overview tab, sorted by CPU
    /// descending, as the monitor starts.
    pub fn new() -> (a: App)
        ensures
            a.wf(),
            a.processes@ == Seq::<ProcessInfo>::empty(),
            a.selected_process == 0,
            a.current_tab == 0,
            a.sort_by == SortBy::Cpu,
            a.sort_ascending == false,
            a.cpu_history@ == Seq::<u64>::empty(),
            a.memory_history@ == Seq::<u64>::empty(),
            a.network_history@ == Seq::<NetworkSample>::empty(),
            a.disk_usage@ == Seq::<DiskUsage>::empty(),
            a.info.cpu_count == 0,
            a.info.total_memory == 0 && a.info.used_memory == 0,
            a.info.total_swap == 0 && a.info.used_swap == 0,
            a.info.uptime == 0,
            a.info.system_name@ == Seq::<char>::empty(),
            a.info.kernel_version@ == Seq::<char>::empty(),
            a.info.os_version@ == Seq::<char>::empty(),
            a.info.host_name@ == Seq::<char>::empty(),
    {
        App {
            processes: Vec::new(),
            selected_process: 0,
            current_tab: 0,
            sort_by: SortBy::Cpu,
            sort_ascending: false,
            cpu_history: BoundedSeries::new(HISTORY_CAPACITY),
            memory_history: BoundedSeries::new(HISTORY_CAPACITY),
            network_history: BoundedSeries::new(HISTORY_CAPACITY),
            disk_usage: Vec::new(),
            info: SystemInfo {
                cpu_count: 0,
                total_memory: 0,
                used_memory: 0,
                total_swap: 0,
                used_swap: 0,
                system_name: String::new(),
                kernel_version: String::new(),
                os_version: String::new(),
                host_name: String::new(),
                uptime: 0,
            },
        }
    }

    /// Replaces the process set wholesale, re-sorts under the active key
    /// and direction, and repairs the selection by clamping it into range.
    /// The selection is positional: it is not re-targeted to the process
    /// it pointed at before the refresh.
    pub fn set_processes(&mut self, records: Vec<ProcessInfo>)
        requires
            old(self).wf(),
        ensures
            final(self).wf(),
            final(self).processes@.to_multiset() == records@.to_multiset(),
            final(self).processes@.len() == records@.len(),
            ordered(old(self).sort_by, old(self).sort_ascending, final(self).processes@),
            final(self).processes@ == stable_sorted(
                old(self).sort_by,
                old(self).sort_ascending,
                records@,
            ),
            final(self).selected_process == clamp_index(
                old(self).selected_process as int,
                records@.len() as int,
            ),
            final(self).sort_by == old(self).sort_by,
            final(self).sort_ascending == old(self).sort_ascending,
            final(self).current_tab == old(self).current_tab,
            same_samples(*final(self), *old(self)),
    {
        self.processes = records;
        sort_records(&mut self.processes, self.sort_by, self.sort_ascending);
        if self.selected_process >= self.processes.len() {
            self.selected_process = if self.processes.len() == 0 {
                0
            } else {
                self.processes.len() - 1
            };
        }
    }

    /// One full refresh from a raw snapshot, in order: rebuild and re-sort
    /// the process table and repair the selection, append the CPU and
    /// memory scalars and the aggregated network sample to their
    /// histories, replace the disk rows, and take over the host facts.
    pub fn update(&mut self, snapshot: Snapshot)
        requires
            old(self).wf(),
        ensures
            final(self).wf(),
            final(self).processes@.to_multiset() == snapshot.processes@.to_multiset(),
            final(self).processes@.len() == snapshot.processes@.len(),
            ordered(old(self).sort_by, old(self).sort_ascending, final(self).processes@),
            final(self).processes@ == stable_sorted(
                old(self).sort_by,
                old(self).sort_ascending,
                snapshot.processes@,
            ),
            final(self).selected_process == clamp_index(
                old(self).selected_process as int,
                snapshot.processes@.len() as int,
            ),
            final(self).sort_by == old(self).sort_by,
            final(self).sort_ascending == old(self).sort_ascending,
            final(self).current_tab == old(self).current_tab,
            final(self).cpu_history@ == recent(
                HISTORY_CAPACITY as nat,
                old(self).cpu_history@.push(snapshot.cpu_usage),
            ),
            final(self).memory_history@ == recent(
                HISTORY_CAPACITY as nat,
                old(self).memory_history@.push(
                    memory_permyriad(snapshot.used_memory, snapshot.total_memory),
                ),
            ),
            final(self).network_history@ == recent(
                HISTORY_CAPACITY as nat,
                old(self).network_history@.push(net_total(snapshot.interfaces@)),
            ),
            final(self).disk_usage@ == disks_norm(snapshot.disks@),
            final(self).info == snapshot.info,
    {
        let Snapshot { processes, cpu_usage, used_memory, total_memory, interfaces, disks, info } =
            snapshot;
        self.set_processes(processes);
        self.cpu_history.append(cpu_usage);
        let mem = memory_usage_permyriad(used_memory, total_memory);
        self.memory_history.append(mem);
        let net = aggregate_network(&interfaces);
        self.network_history.append(net);
        self.disk_usage = normalize_disks(&disks);
        self.info = info;
    }

    /// A manual refresh performs the identical sequence as a scheduled
    /// tick, and its samples count like any other tick's.
    pub fn refresh(&mut self, snapshot: Snapshot)
        requires
            old(self).wf(),
        ensures
            final(self).wf(),
            final(self).processes@.to_multiset() == snapshot.processes@.to_multiset(),
            final(self).processes@.len() == snapshot.processes@.len(),
            ordered(old(self).sort_by, old(self).sort_ascending, final(self).processes@),
            final(self).processes@ == stable_sorted(
                old(self).sort_by,
                old(self).sort_ascending,
                snapshot.processes@,
            ),
            final(self).selected_process == clamp_index(
                old(self).selected_process as int,
                snapshot.processes@.len() as int,
            ),
            final(self).sort_by == old(self).sort_by,
            final(self).sort_ascending == old(self).sort_ascending,
            final(self).current_tab == old(self).current_tab,
            final(self).cpu_history@ == recent(
                HISTORY_CAPACITY as nat,
                old(self).cpu_history@.push(snapshot.cpu_usage),
            ),
            final(self).memory_history@ == recent(
                HISTORY_CAPACITY as nat,
                old(self).memory_history@.push(
                    memory_permyriad(snapshot.used_memory, snapshot.total_memory),
                ),
            ),
            final(self).network_history@ == recent(
                HISTORY_CAPACITY as nat,
                old(self).network_history@.push(net_total(snapshot.interfaces@)),
            ),
            final(self).disk_usage@ == disks_norm(snapshot.disks@),
            final(self).info == snapshot.info,
    {
        self.update(snapshot);
    }

    /// Steps to the next tab, wrapping after the last.
    pub fn next_tab(&mut self)
        requires
            old(self).wf(),
        ensures
            final(self).wf(),
            final(self).current_tab == tab_next(old(self).current_tab as int),
            same_table(*final(self), *old(self)),
            same_samples(*final(self), *old(self)),
    {
        self.current_tab = (self.current_tab + 1) % TAB_COUNT;
    }

    /// Steps to the previous tab, wrapping before the first.
    pub fn previous_tab(&mut self)
        requires
            old(self).wf(),
        ensures
            final(self).wf(),
            final(self).current_tab == tab_prev(old(self).current_tab as int),
            same_table(*final(self), *old(self)),
            same_samples(*final(self), *old(self)),
    {
        if self.current_tab > 0 {
            self.current_tab = self.current_tab - 1;
        } else {
            self.current_tab = TAB_COUNT - 1;
        }
    }

    /// Moves the selection one row down, wrapping past the last row; a
    /// no-op on an empty table.
    pub fn next_process(&mut self)
        requires
            old(self).wf(),
        ensures
            final(self).wf(),
            final(self).selected_process == step_forward(
                old(self).selected_process as int,
                old(self).processes@.len() as int,
            ),
            final(self).processes@ == old(self).processes@,
            final(self).sort_by == old(self).sort_by,
            final(self).sort_ascending == old(self).sort_ascending,
            final(self).current_tab == old(self).current_tab,
            same_samples(*final(self), *old(self)),
    {
        if self.processes.len() > 0 {
            self.selected_process = (self.selected_process + 1) % self.processes.len();
        }
    }

    /// Moves the selection one row up, wrapping from the first row to the
    /// last; a no-op on an empty table.
    pub fn previous_process(&mut self)
        requires
            old(self).wf(),
        ensures
            final(self).wf(),
            final(self).selected_process == step_back(
                old(self).selected_process as int,
                old(self).processes@.len() as int,
            ),
            final(self).processes@ == old(self).processes@,
            final(self).sort_by == old(self).sort_by,
            final(self).sort_ascending == old(self).sort_ascending,
            final(self).current_tab == old(self).current_tab,
            same_samples(*final(self), *old(self)),
    {
        if self.processes.len() > 0 {
            if self.selected_process > 0 {
                self.selected_process = self.selected_process - 1;
            } else {
                self.selected_process = self.processes.len() - 1;
            }
        }
    }

    /// Advances the sort key one step around its fixed cycle and re-sorts.
    /// The direction is deliberately left as it is.
    pub fn toggle_sort(&mut self)
        requires
            old(self).wf(),
        ensures
            final(self).wf(),
            final(self).sort_by == next_key(old(self).sort_by),
            final(self).sort_ascending == old(self).sort_ascending,
            final(self).processes@.to_multiset() == old(self).processes@.to_multiset(),
            final(self).processes@.len() == old(self).processes@.len(),
            ordered(final(self).sort_by, final(self).sort_ascending, final(self).processes@),
            final(self).processes@ == stable_sorted(
                next_key(old(self).sort_by),
                old(self).sort_ascending,
                old(self).processes@,
            ),
            final(self).selected_process == old(self).selected_process,
            final(self).current_tab == old(self).current_tab,
            same_samples(*final(self), *old(self)),
    {
        self.sort_by = match self.sort_by {
            SortBy::Pid => SortBy::Name,
            SortBy::Name => SortBy::Cpu,
            SortBy::Cpu => SortBy::Memory,
            SortBy::Memory => SortBy::Pid,
        };
        sort_records(&mut self.processes, self.sort_by, self.sort_ascending);
    }

    /// Sets the sort key and direction and re-sorts in place.
    pub fn sort_by(&mut self, key: SortBy, ascending: bool)
        requires
            old(self).wf(),
        ensures
            final(self).wf(),
            final(self).sort_by == key,
            final(self).sort_ascending == ascending,
            final(self).processes@.to_multiset() == old(self).processes@.to_multiset(),
            final(self).processes@.len() == old(self).processes@.len(),
            ordered(key, ascending, final(self).processes@),
            final(self).processes@ == stable_sorted(key, ascending, old(self).processes@),
            final(self).selected_process == old(self).selected_process,
            final(self).current_tab == old(self).current_tab,
            same_samples(*final(self), *old(self)),
    {
        self.sort_by = key;
        self.sort_ascending = ascending;
        sort_records(&mut self.processes, key, ascending);
    }

    /// Resolves the termination request of the highlighted row: the
    /// identifier of the process to terminate, or nothing when the table
    /// is empty. Issuing the request is the provider's business; the row
    /// itself disappears only once a later snapshot no longer carries it.
    pub fn kill_selected_process(&self) -> (r: Option<u32>)
        requires
            self.wf(),
        ensures
            if self.processes@.len() > 0 {
                r == Some(self.processes@[self.selected_process as int].pid)
            } else {
                r is None
            },
    {
        if self.processes.len() > 0 {
            Some(self.processes[self.selected_process].pid)
        } else {
            None
        }
    }

    /// The host facts of the latest snapshot, as one read-only copy.
    pub fn get_system_info(&self) -> (r: SystemInfo)
        ensures
            r == self.info,
    {
        SystemInfo {
            cpu_count: self.info.cpu_count,
            total_memory: self.info.total_memory,
            used_memory: self.info.used_memory,
            total_swap: self.info.total_swap,
            used_swap: self.info.used_swap,
            system_name: self.info.system_name.clone(),
            kernel_version: self.info.kernel_version.clone(),
            os_version: self.info.os_version.clone(),
            host_name: self.info.host_name.clone(),
            uptime: self.info.uptime,
        }
    }
}

/// Four quick-toggles of the sort key return to where they started.
pub proof fn lemma_sort_key_cycle(k: SortBy)
    ensures
        next_key(next_key(next_key(next_key(k)))) == k,
{
}

/// Four forward tab steps, or four backward ones, return to the starting
/// tab.
pub proof fn lemma_tab_cycle(t: int)
    requires
        0 <= t < TAB_COUNT,
    ensures
        tab_next(tab_next(tab_next(tab_next(t)))) == t,
        tab_prev(tab_prev(tab_prev(tab_prev(t)))) == t,
{
}

/// The selection after `steps` forward moves through a table of `len` rows.
pub open spec fn advanced(sel: int, len: int, steps: nat) -> int
    decreases steps,
{
    if steps == 0 {
        sel
    } else {
        step_forward(advanced(sel, len, (steps - 1) as nat), len)
    }
}

/// Stepping forward lands on `(sel + steps) % len`: the wrap-around walk
/// never leaves the table.
pub proof fn lemma_advanced_mod(sel: int, len: int, steps: nat)
    requires
        0 <= sel < len,
    ensures
        advanced(sel, len, steps) == (sel + steps) % len,
    decreases steps,
{
    if steps == 0 {
        lemma_small_mod(sel as nat, len as nat);
    } else {
        lemma_advanced_mod(sel, len, (steps - 1) as nat);
        lemma_add_mod_noop_right(1, sel + steps - 1, len);
        assert((1 + (sel + steps - 1) % len) % len == (1 + (sel + steps - 1)) % len);
    }
}

/// Moving the selection forward as many times as the table has rows
/// returns it to where it started.
pub proof fn lemma_selection_cycle(sel: int, len: int)
    requires
        0 <= sel < len,
    ensures
        advanced(sel, len, len as nat) == sel,
{
    lemma_advanced_mod(sel, len, len as nat);
    lemma_mod_add_multiples_vanish(sel, len);
    lemma_small_mod(sel as nat, len as nat);
}

} // verus!
