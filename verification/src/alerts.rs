//! Rule-based anomaly detection over a single [`Snapshot`].
//!
//! Fixed thresholds, nothing clever. The rules only decide whether to tell
//! the user and draft a suggestion in words; they never take a corrective
//! action.
use crate::battery::{eta_text, format_eta};
use crate::float::{is_below, multiply, ratio, ratio_of, times, whole, whole_of, DOUBLE};
use crate::number::{decimal, push_decimal, tenths, tenths_text, units, units_text, ONE};
use crate::snapshot::{ConnectionCounts, DiskInfo, MemoryInfo, ProcGroup, ProcInfo, ProcSample, Snapshot};
use crate::stamps::{recent, since, Stamps};
use crate::text::{chars_of, join, joined, same, texts};
use std::collections::HashMap;
use vstd::prelude::*;
use vstd::string::StringExecFns;

verus! {

/// 2 GB.
pub const SWAP_THRESHOLD_BYTES: u64 = 2147483648;

/// Memory is low when the share that is free is less than this many parts of
/// 2^56: 0.05 in double precision.
pub const LOW_FREE_MEM_RATIO: u64 = 3602879701896397;

/// 2^56.
pub const LOW_FREE_MEM_PARTS: u64 = 72057594037927936;

/// In percent of one processor.
pub const CPU_HOG_THRESHOLD_PCT: u64 = 90;

/// In samples.
pub const CPU_HOG_STREAK_REQUIRED: u32 = 3;

/// 10 GB.
pub const LOW_DISK_AVAILABLE_BYTES: u64 = 10737418240;

/// TCP connections in any state. A first guess, to be tuned from the field.
pub const HIGH_CONNECTION_COUNT_THRESHOLD: u32 = 1500;

/// Connections from outside. A first guess, to be tuned from the field.
pub const INCOMING_CONNECTIONS_THRESHOLD: u32 = 10;

/// Instances of one program. A first guess, to be tuned from the field.
pub const PROCESS_COUNT_THRESHOLD: u32 = 100;

/// In percent of one processor, for all instances together.
pub const LEAKED_GROUP_CPU_IDLE_PCT: u64 = 5;

/// In percent of a full charge. A first guess, to be tuned from the field.
pub const BATTERY_LOW_PCT: u8 = 20;

/// Something the user should know about.
#[derive(Debug)]
pub struct Alert {
    pub key: String,
    pub title: String,
    pub message: String,
    /// What the alert is about, for telling a repeated firing from a new
    /// incident: a process or a group where the rule is about one, the
    /// rule's own key where it is about the machine as a whole, and nothing
    /// where every firing stands for itself.
    pub target: Option<String>,
    /// The command line of the process that the alert points at, as it was
    /// when the alert fired. By the time anyone looks, its pid may belong to
    /// another process.
    pub command: Option<String>,
}

/// What an alert says.
pub struct AlertView {
    pub key: Seq<char>,
    pub title: Seq<char>,
    pub message: Seq<char>,
    pub target: Option<Seq<char>>,
    pub command: Option<Seq<char>>,
}

pub open spec fn optional(s: Option<String>) -> Option<Seq<char>> {
    match s {
        Some(t) => Some(t@),
        None => None,
    }
}

impl View for Alert {
    type V = AlertView;

    open spec fn view(&self) -> AlertView {
        AlertView {
            key: self.key@,
            title: self.title@,
            message: self.message@,
            target: optional(self.target),
            command: optional(self.command),
        }
    }
}

pub open spec fn views(alerts: Seq<Alert>) -> Seq<AlertView> {
    alerts.map_values(|a: Alert| a@)
}

// ---------------------------------------------------------------- wording

/// What a message adds when the process it points at is this program.
pub open spec fn self_note(name: Seq<char>) -> Seq<char> {
    if name == "vigil"@ {
        " Note: this is vigil itself, so its own overhead is the problem here."@
    } else {
        Seq::empty()
    }
}

/// A number of bytes in megabytes, to the nearest one. The quotient is taken in
/// double precision, here and below.
pub open spec fn megabytes(bytes: u64) -> Seq<char> {
    let q = ratio(bytes as nat, 1000000, DOUBLE as nat);
    units(q.0, q.1)
}

/// A number of bytes in megabytes, to one digit behind the point.
pub open spec fn megabyte_tenths(bytes: u64) -> Seq<char> {
    let q = ratio(bytes as nat, 1000000, DOUBLE as nat);
    tenths(q.0, q.1)
}

/// A number of bytes in gigabytes, to one digit behind the point.
pub open spec fn gigabytes(bytes: u64) -> Seq<char> {
    let q = ratio(bytes as nat, 1000000000, DOUBLE as nat);
    tenths(q.0, q.1)
}

pub(crate) fn megabytes_text(bytes: u64) -> (r: String)
    ensures
        r@ == megabytes(bytes),
{
    let (a, b) = ratio_of(bytes, 1000000, DOUBLE);
    units_text(a, b)
}

pub(crate) fn megabyte_tenths_text(bytes: u64) -> (r: String)
    ensures
        r@ == megabyte_tenths(bytes),
{
    let (a, b) = ratio_of(bytes, 1000000, DOUBLE);
    tenths_text(a, b)
}

pub(crate) fn gigabytes_text(bytes: u64) -> (r: String)
    ensures
        r@ == gigabytes(bytes),
{
    let (a, b) = ratio_of(bytes, 1000000000, DOUBLE);
    tenths_text(a, b)
}

/// A share of one processor in percent.
pub open spec fn percent(bits: u64) -> Seq<char> {
    units(bits as nat, ONE as nat)
}

/// The group is at least half as large again as the process.
pub open spec fn outweighs(group: ProcGroup, top: ProcInfo) -> bool {
    group.total_mem_bytes * 2 >= top.mem_bytes * 3
}

/// What uses the most memory: the largest process, or the largest group
/// where that is a good deal larger.
pub open spec fn mem_consumer(top: ProcInfo, groups: Seq<ProcGroup>) -> Seq<char> {
    if groups.len() > 0 && outweighs(groups[0], top) {
        groups[0].name@ + " ("@ + decimal(groups[0].count as nat) + " processes, "@ + megabytes(
            groups[0].total_mem_bytes,
        ) + " MB combined)"@
    } else {
        top.name@ + " ("@ + megabytes(top.mem_bytes) + " MB)"@
    }
}

/// How long a process has run, in its largest unit.
pub open spec fn age(secs: u64) -> Seq<char> {
    if secs >= 86400 {
        decimal(secs as nat / 86400) + "d"@
    } else if secs >= 3600 {
        decimal(secs as nat / 3600) + "h"@
    } else {
        decimal(secs as nat / 60) + "m"@
    }
}

/// A process to look at.
pub open spec fn sample_text(s: ProcSample) -> Seq<char> {
    match s.ppid {
        Some(ppid) => "pid "@ + decimal(s.pid as nat) + " (ppid "@ + decimal(ppid as nat) + ", "@
            + age(s.run_time_secs) + ")"@,
        None => "pid "@ + decimal(s.pid as nat) + " ("@ + age(s.run_time_secs) + ")"@,
    }
}

pub open spec fn sample_texts(samples: Seq<ProcSample>) -> Seq<Seq<char>> {
    samples.map_values(|s: ProcSample| sample_text(s))
}

fn self_note_text(name: &str) -> (r: String)
    ensures
        r@ == self_note(name@),
{
    if same(name, "vigil") {
        " Note: this is vigil itself, so its own overhead is the problem here.".to_string()
    } else {
        String::new()
    }
}

fn append_number(out: &mut String, n: u64)
    ensures
        final(out)@ == old(out)@ + decimal(n as nat),
{
    push_decimal(out, n as u128);
}

fn mem_consumer_text(top: &ProcInfo, groups: &Vec<ProcGroup>) -> (r: String)
    ensures
        r@ == mem_consumer(*top, groups@),
{
    if groups.len() > 0 && groups[0].total_mem_bytes as u128 * 2 >= top.mem_bytes as u128 * 3 {
        let mut r = groups[0].name.clone();
        r.append(" (");
        append_number(&mut r, groups[0].count as u64);
        r.append(" processes, ");
        r.append(megabytes_text(groups[0].total_mem_bytes).as_str());
        r.append(" MB combined)");
        r
    } else {
        let mut r = top.name.clone();
        r.append(" (");
        r.append(megabytes_text(top.mem_bytes).as_str());
        r.append(" MB)");
        r
    }
}

fn age_text(secs: u64) -> (r: String)
    ensures
        r@ == age(secs),
{
    let mut r: String = String::new();
    if secs >= 86400 {
        append_number(&mut r, secs / 86400);
        assert(r@ == decimal(secs as nat / 86400));
        r.append("d");
    } else if secs >= 3600 {
        append_number(&mut r, secs / 3600);
        assert(r@ == decimal(secs as nat / 3600));
        r.append("h");
    } else {
        append_number(&mut r, secs / 60);
        assert(r@ == decimal(secs as nat / 60));
        r.append("m");
    }
    r
}

fn sample_line(s: &ProcSample) -> (r: String)
    ensures
        r@ == sample_text(*s),
{
    let mut r = "pid ".to_string();
    append_number(&mut r, s.pid as u64);
    if let Some(ppid) = s.ppid {
        r.append(" (ppid ");
        append_number(&mut r, ppid as u64);
        r.append(", ");
    } else {
        r.append(" (");
    }
    r.append(age_text(s.run_time_secs).as_str());
    r.append(")");
    r
}

fn samples_line(samples: &Vec<ProcSample>) -> (r: String)
    ensures
        r@ == join(sample_texts(samples@), ", "@),
{
    let mut lines: Vec<String> = Vec::new();
    let mut i: usize = 0;
    while i < samples.len()
        invariant
            i <= samples@.len(),
            texts(lines@) == sample_texts(samples@).take(i as int),
        decreases samples@.len() - i,
    {
        let ghost before = lines@;
        let line = sample_line(&samples[i]);
        lines.push(line);
        assert(texts(lines@) == texts(before).push(sample_text(samples@[i as int])));
        assert(sample_texts(samples@).take(i + 1) == sample_texts(samples@).take(i as int).push(
            sample_text(samples@[i as int]),
        ));
        i = i + 1;
    }
    assert(sample_texts(samples@).take(i as int) == sample_texts(samples@));
    joined(&lines, ", ")
}

// ------------------------------------------------------------------ rules

/// The load average is more than one and a half times the number of
/// processors.
pub open spec fn load_is_high(snap: Snapshot, cpu_count: usize) -> bool {
    snap.load_avg.one.bits * 2 > load_threshold(cpu_count) * ONE
}

/// One and a half times the number of processors, in double precision and in
/// halves.
pub open spec fn load_threshold(cpu_count: usize) -> nat {
    whole(whole(cores(cpu_count), DOUBLE as nat) * 3, DOUBLE as nat)
}

pub open spec fn cores(cpu_count: usize) -> nat {
    if cpu_count == 0 {
        1
    } else {
        cpu_count as nat
    }
}

pub open spec fn high_load(snap: Snapshot, cpu_count: usize) -> Seq<AlertView> {
    if load_is_high(snap, cpu_count) && snap.top_cpu@.len() > 0 {
        let top = snap.top_cpu@[0];
        seq![
            AlertView {
                key: "high_load"@,
                title: "vigil: high load"@,
                message: "Load average "@ + tenths(snap.load_avg.one.bits as nat, ONE as nat)
                    + " (threshold "@ + tenths(load_threshold(cpu_count), 2) + " for "@ + decimal(
                    cpu_count as nat,
                ) + " cores). Top consumer: "@ + top.name@ + " ("@ + percent(top.cpu_pct.bits)
                    + "% CPU). Suggestion: check the process and restart it if needed."@
                    + self_note(top.name@),
                target: Some("high_load"@),
                command: Some(top.cmd@),
            },
        ]
    } else {
        Seq::empty()
    }
}

pub open spec fn swap_pressure(snap: Snapshot) -> Seq<AlertView> {
    if snap.memory.swap_used_bytes > SWAP_THRESHOLD_BYTES && snap.top_mem@.len() > 0 {
        seq![
            AlertView {
                key: "swap_pressure"@,
                title: "vigil: active swap"@,
                message: "Swap usage "@ + gigabytes(snap.memory.swap_used_bytes)
                    + " GB — memory is running out. Top consumer: "@ + mem_consumer(
                    snap.top_mem@[0],
                    snap.top_mem_groups@,
                ) + ". Suggestion: close it or restart the machine."@,
                target: Some("swap_pressure"@),
                command: None,
            },
        ]
    } else {
        Seq::empty()
    }
}

/// The share of the memory that is free, in double precision.
pub open spec fn free_ratio(m: MemoryInfo) -> (nat, nat) {
    ratio(m.free_bytes as nat, m.total_bytes as nat, DOUBLE as nat)
}

/// Less than a twentieth of the memory is free.
pub open spec fn memory_is_low(snap: Snapshot) -> bool {
    let q = free_ratio(snap.memory);
    snap.memory.total_bytes > 0 && q.0 * LOW_FREE_MEM_PARTS < LOW_FREE_MEM_RATIO * q.1
}

/// The share of the memory that is free, in percent.
pub open spec fn free_percent(m: MemoryInfo) -> Seq<char> {
    let q = times(free_ratio(m), 100, DOUBLE as nat);
    tenths(q.0, q.1)
}

pub open spec fn low_memory(snap: Snapshot) -> Seq<AlertView> {
    if memory_is_low(snap) && snap.top_mem@.len() > 0 {
        seq![
            AlertView {
                key: "low_memory"@,
                title: "vigil: low free memory"@,
                message: "Only "@ + free_percent(snap.memory) + "% memory free. Top consumer: "@ + mem_consumer(
                    snap.top_mem@[0],
                    snap.top_mem_groups@,
                ) + ". Suggestion: close unused applications."@,
                target: Some("low_memory"@),
                command: None,
            },
        ]
    } else {
        Seq::empty()
    }
}

pub open spec fn low_disk(disk: DiskInfo) -> AlertView {
    AlertView {
        key: "low_disk:"@ + disk.mount_point@,
        title: "vigil: low disk space"@,
        message: disk.mount_point@ + " has "@ + gigabytes(disk.available_bytes)
            + " GB free out of "@ + gigabytes(disk.total_bytes) + " GB ("@ + percent(
            disk.used_pct.bits,
        )
            + "% used). Press 'a' in the UI to ask the agent why, or check manually: browser caches (~/Library/Caches), Docker images (docker system df), Time Machine local snapshots (tmutil listlocalsnapshots /), Xcode DerivedData."@,
        target: None,
        command: None,
    }
}

pub open spec fn low_disks(disks: Seq<DiskInfo>) -> Seq<AlertView>
    decreases disks.len(),
{
    if disks.len() == 0 {
        Seq::empty()
    } else if disks.last().available_bytes < LOW_DISK_AVAILABLE_BYTES {
        low_disks(disks.drop_last()).push(low_disk(disks.last()))
    } else {
        low_disks(disks.drop_last())
    }
}

/// The process uses more than its share of a processor.
pub open spec fn is_hog(p: ProcInfo) -> bool {
    p.cpu_pct.bits > CPU_HOG_THRESHOLD_PCT * ONE
}

/// One sample more, where there is room to count it.
pub open spec fn longer(streaks: Map<u32, u32>, pid: u32) -> u32 {
    if !streaks.contains_key(pid) {
        1
    } else if streaks[pid] == u32::MAX {
        u32::MAX
    } else {
        (streaks[pid] + 1) as u32
    }
}

/// The streaks once every one of `procs` has been looked at: one longer for a
/// hog, none for any other.
pub open spec fn streaks_after(streaks: Map<u32, u32>, procs: Seq<ProcInfo>) -> Map<u32, u32>
    decreases procs.len(),
{
    if procs.len() == 0 {
        streaks
    } else {
        let known = streaks_after(streaks, procs.drop_last());
        let p = procs.last();
        if is_hog(p) {
            known.insert(p.pid, longer(known, p.pid))
        } else {
            known.remove(p.pid)
        }
    }
}

/// The pids that occur.
pub open spec fn pids(procs: Seq<ProcInfo>) -> Set<u32> {
    procs.map_values(|p: ProcInfo| p.pid).to_set()
}

/// For how many samples in a row each process has been a hog. A process that
/// is no longer among the busiest is forgotten.
pub open spec fn next_streaks(streaks: Map<u32, u32>, procs: Seq<ProcInfo>) -> Map<u32, u32> {
    streaks_after(streaks, procs).restrict(pids(procs))
}

/// The process has been a hog for long enough.
pub open spec fn is_sustained(streaks: Map<u32, u32>, p: ProcInfo) -> bool {
    streaks.contains_key(p.pid) && streaks[p.pid] >= CPU_HOG_STREAK_REQUIRED
}

/// The alert about the first of `procs` that has been a hog for long enough.
pub open spec fn cpu_hog(streaks: Map<u32, u32>, procs: Seq<ProcInfo>) -> Seq<AlertView>
    decreases procs.len(),
{
    if procs.len() == 0 {
        Seq::empty()
    } else if is_sustained(streaks, procs[0]) {
        let p = procs[0];
        seq![
            AlertView {
                key: "cpu_hog:"@ + decimal(p.pid as nat),
                title: "vigil: process hogging CPU"@,
                message: p.name@ + " (pid "@ + decimal(p.pid as nat) + ") has held "@ + percent(
                    p.cpu_pct.bits,
                ) + "% CPU for "@ + decimal(streaks[p.pid] as nat)
                    + " consecutive samples. Suggestion: check the process and decide whether to restart it."@
                    + self_note(p.name@),
                target: Some(p.name@),
                command: Some(p.cmd@),
            },
        ]
    } else {
        cpu_hog(streaks, procs.skip(1))
    }
}

pub open spec fn high_connection_count(c: ConnectionCounts) -> Seq<AlertView> {
    if c.total > HIGH_CONNECTION_COUNT_THRESHOLD {
        seq![
            AlertView {
                key: "high_connection_count"@,
                title: "vigil: high connection count"@,
                message: decimal(c.total as nat) + " TCP connections ("@ + decimal(
                    c.established as nat,
                ) + " established, "@ + decimal(c.time_wait as nat) + " in TIME_WAIT, "@ + decimal(
                    c.close_wait as nat,
                )
                    + " in CLOSE_WAIT). Suggestion: check which process keeps opening them."@,
                target: None,
                command: None,
            },
        ]
    } else {
        Seq::empty()
    }
}

pub open spec fn incoming_connections(c: ConnectionCounts) -> Seq<AlertView> {
    if c.incoming > INCOMING_CONNECTIONS_THRESHOLD {
        seq![
            AlertView {
                key: "incoming_connections"@,
                title: "vigil: incoming connections"@,
                message: decimal(c.incoming as nat)
                    + " established connections from other machines to services on this one. Suggestion: check which services are reachable from the network."@,
                target: None,
                command: None,
            },
        ]
    } else {
        Seq::empty()
    }
}

pub open spec fn connection_alerts(connections: Option<ConnectionCounts>) -> Seq<AlertView> {
    match connections {
        Some(c) => high_connection_count(c) + incoming_connections(c),
        None => Seq::empty(),
    }
}

/// Unusually many instances that together do next to nothing.
pub open spec fn is_leaked(group: ProcGroup) -> bool {
    group.count > PROCESS_COUNT_THRESHOLD && group.total_cpu_pct.bits < LEAKED_GROUP_CPU_IDLE_PCT
        * ONE
}

pub open spec fn high_process_count(group: ProcGroup) -> AlertView {
    AlertView {
        key: "high_process_count:"@ + group.name@,
        title: "vigil: many idle processes"@,
        message: decimal(group.count as nat) + " "@ + group.name@ + " processes at "@ + percent(
            group.total_cpu_pct.bits,
        ) + "% combined CPU — possibly leaked. Oldest: "@ + join(
            sample_texts(group.oldest@),
            ", "@,
        ) + ". Suggestion: check what they belong to before ending any of them."@,
        target: Some(group.name@),
        command: None,
    }
}

pub open spec fn leaked_groups(groups: Seq<ProcGroup>) -> Seq<AlertView>
    decreases groups.len(),
{
    if groups.len() == 0 {
        Seq::empty()
    } else if is_leaked(groups.last()) {
        leaked_groups(groups.drop_last()).push(high_process_count(groups.last()))
    } else {
        leaked_groups(groups.drop_last())
    }
}

/// Everything the rules but the one about the load find in `snap`, where
/// `streaks` is what is known of the hogs now.
pub open spec fn other_findings(snap: Snapshot, streaks: Map<u32, u32>) -> Seq<AlertView> {
    swap_pressure(snap) + low_memory(snap) + low_disks(snap.disks@) + cpu_hog(
        streaks,
        snap.top_cpu@,
    ) + connection_alerts(snap.connections) + leaked_groups(snap.top_mem_groups@)
}

/// Everything the rules find in `snap`, where `streaks` is what is known of
/// the hogs now. The rule about the load counts only where `load_counts`.
pub open spec fn findings_if(
    load_counts: bool,
    snap: Snapshot,
    cpu_count: usize,
    streaks: Map<u32, u32>,
) -> Seq<AlertView> {
    (if load_counts {
        high_load(snap, cpu_count)
    } else {
        Seq::empty()
    }) + other_findings(snap, streaks)
}

/// Everything the rules find in `snap`, where `streaks` is what is known of
/// the hogs now.
pub open spec fn findings(snap: Snapshot, cpu_count: usize, streaks: Map<u32, u32>) -> Seq<
    AlertView,
> {
    findings_if(true, snap, cpu_count, streaks)
}

/// The charge, where the battery is discharging and has little left.
pub open spec fn low_charge(snap: Snapshot) -> Option<u8> {
    match snap.battery {
        Some(b) => match b.percentage {
            Some(pct) => if b.charging == Some(false) && pct <= BATTERY_LOW_PCT {
                Some(pct)
            } else {
                None
            },
            None => None,
        },
        None => None,
    }
}

/// What the battery's own rule finds, where `eta` is how long the battery
/// lasts, in nanoseconds. What each process draws is not known, so the alert
/// points at the one that is busiest.
pub open spec fn low_battery(snap: Snapshot, eta: Option<u128>) -> Seq<AlertView> {
    if low_charge(snap) is Some && snap.top_cpu@.len() > 0 {
        let top = snap.top_cpu@[0];
        seq![
            AlertView {
                key: "battery_low"@,
                title: "vigil: low battery"@,
                message: "Battery at "@ + decimal(low_charge(snap)->0 as nat) + "%"@ + match eta {
                    Some(d) => ", ~"@ + eta_text(d as nat) + " left"@,
                    None => Seq::empty(),
                } + ". Top CPU consumer: "@ + top.name@ + " ("@ + percent(top.cpu_pct.bits)
                    + "% CPU). Suggestion: close it if it is not needed, or plug in."@ + self_note(
                    top.name@,
                ),
                target: Some("battery_low"@),
                command: Some(top.cmd@),
            },
        ]
    } else {
        Seq::empty()
    }
}

// --------------------------------------------------------------- cooldown

/// A rule may fire: it has not fired yet, or not within the cooldown.
pub open spec fn is_ready(
    last: Map<Seq<char>, u64>,
    key: Seq<char>,
    cooldown: nat,
    now: u64,
) -> bool {
    last.contains_key(key) ==> since(now, last[key]) >= cooldown
}

/// The findings that fire, and when each rule last fired after that.
pub open spec fn fire(
    last: Map<Seq<char>, u64>,
    cooldown: nat,
    now: u64,
    found: Seq<AlertView>,
) -> (Map<Seq<char>, u64>, Seq<AlertView>)
    decreases found.len(),
{
    if found.len() == 0 {
        (last, Seq::empty())
    } else {
        let (fired, out) = fire(last, cooldown, now, found.drop_last());
        let a = found.last();
        if is_ready(fired, a.key, cooldown, now) {
            (fired.insert(a.key, now), out.push(a))
        } else {
            (fired, out)
        }
    }
}

/// What the rules remember from one sample to the next. Times are in
/// nanoseconds of a clock that only goes forward.
pub struct AlertState {
    pub last_fired: Stamps,
    pub cpu_hog_streak: HashMap<u32, u32>,
}

impl AlertState {
    pub fn new() -> (r: Self)
        ensures
            r.last_fired@ == Map::<Seq<char>, u64>::empty(),
            r.cpu_hog_streak@ == Map::<u32, u32>::empty(),
    {
        AlertState { last_fired: Stamps::new(), cpu_hog_streak: HashMap::new() }
    }

    /// Adds `alert` to `out` unless its rule has fired within the cooldown.
    pub fn try_fire(&mut self, now: u64, cooldown: u128, alert: Alert, out: &mut Vec<Alert>)
        ensures
            final(self).cpu_hog_streak == old(self).cpu_hog_streak,
            is_ready(old(self).last_fired@, alert@.key, cooldown as nat, now) ==> {
                &&& final(self).last_fired@ == old(self).last_fired@.insert(alert@.key, now)
                &&& final(out)@ == old(out)@.push(alert)
            },
            !is_ready(old(self).last_fired@, alert@.key, cooldown as nat, now) ==> {
                &&& final(self).last_fired@ == old(self).last_fired@
                &&& final(out)@ == old(out)@
            },
    {
        let ready = match self.last_fired.get(alert.key.as_str()) {
            Some(then) => now.saturating_sub(then) as u128 >= cooldown,
            None => true,
        };
        if ready {
            self.last_fired.set(alert.key.as_str(), now);
            out.push(alert);
        }
    }
}

// ------------------------------------------------------------- evaluation

fn find_high_load(snap: &Snapshot, cpu_count: usize, out: &mut Vec<Alert>)
    ensures
        views(final(out)@) == views(old(out)@) + high_load(*snap, cpu_count),
{
    let ghost before = out@;
    let threshold = load_threshold_of(cpu_count);
    if is_load_high(snap, cpu_count) && snap.top_cpu.len() > 0 {
        let top = &snap.top_cpu[0];
        let mut message = "Load average ".to_string();
        message.append(tenths_text(snap.load_avg.one.bits as u128, ONE as u128).as_str());
        message.append(" (threshold ");
        message.append(tenths_text(threshold, 2).as_str());
        message.append(" for ");
        append_number(&mut message, cpu_count as u64);
        message.append(" cores). Top consumer: ");
        message.append(top.name.as_str());
        message.append(" (");
        message.append(units_text(top.cpu_pct.bits as u128, ONE as u128).as_str());
        message.append("% CPU). Suggestion: check the process and restart it if needed.");
        message.append(self_note_text(top.name.as_str()).as_str());
        out.push(
            Alert {
                key: "high_load".to_string(),
                title: "vigil: high load".to_string(),
                message,
                target: Some("high_load".to_string()),
                command: Some(top.cmd.clone()),
            },
        );
        assert(out@ == before.push(out@.last()));
        assert(views(out@) == views(before) + high_load(*snap, cpu_count));
    }
    assert(views(out@) == views(before) + high_load(*snap, cpu_count));
}

fn find_swap_pressure(snap: &Snapshot, out: &mut Vec<Alert>)
    ensures
        views(final(out)@) == views(old(out)@) + swap_pressure(*snap),
{
    let ghost before = out@;
    if snap.memory.swap_used_bytes > SWAP_THRESHOLD_BYTES && snap.top_mem.len() > 0 {
        let mut message = "Swap usage ".to_string();
        message.append(gigabytes_text(snap.memory.swap_used_bytes).as_str());
        message.append(" GB — memory is running out. Top consumer: ");
        message.append(mem_consumer_text(&snap.top_mem[0], &snap.top_mem_groups).as_str());
        message.append(". Suggestion: close it or restart the machine.");
        out.push(
            Alert {
                key: "swap_pressure".to_string(),
                title: "vigil: active swap".to_string(),
                message,
                target: Some("swap_pressure".to_string()),
                command: None,
            },
        );
        assert(out@ == before.push(out@.last()));
    }
    assert(views(out@) == views(before) + swap_pressure(*snap));
}

fn find_low_memory(snap: &Snapshot, out: &mut Vec<Alert>)
    ensures
        views(final(out)@) == views(old(out)@) + low_memory(*snap),
{
    let ghost before = out@;
    let m = &snap.memory;
    if m.total_bytes == 0 {
        assert(views(out@) == views(before) + low_memory(*snap));
        return;
    }
    let free = ratio_of(m.free_bytes, m.total_bytes, DOUBLE);
    if is_below(free, LOW_FREE_MEM_RATIO, LOW_FREE_MEM_PARTS) && snap.top_mem.len() > 0 {
        let (a, b) = multiply(free, 100, DOUBLE);
        let mut message = "Only ".to_string();
        message.append(tenths_text(a, b).as_str());
        message.append("% memory free. Top consumer: ");
        message.append(mem_consumer_text(&snap.top_mem[0], &snap.top_mem_groups).as_str());
        message.append(". Suggestion: close unused applications.");
        out.push(
            Alert {
                key: "low_memory".to_string(),
                title: "vigil: low free memory".to_string(),
                message,
                target: Some("low_memory".to_string()),
                command: None,
            },
        );
        assert(out@ == before.push(out@.last()));
    }
    assert(views(out@) == views(before) + low_memory(*snap));
}

fn low_disk_alert(disk: &DiskInfo) -> (r: Alert)
    ensures
        r@ == low_disk(*disk),
{
    let mut key = "low_disk:".to_string();
    key.append(disk.mount_point.as_str());
    let mut message = disk.mount_point.clone();
    message.append(" has ");
    message.append(gigabytes_text(disk.available_bytes).as_str());
    message.append(" GB free out of ");
    message.append(gigabytes_text(disk.total_bytes).as_str());
    message.append(" GB (");
    message.append(units_text(disk.used_pct.bits as u128, ONE as u128).as_str());
    message.append(
        "% used). Press 'a' in the UI to ask the agent why, or check manually: browser caches (~/Library/Caches), Docker images (docker system df), Time Machine local snapshots (tmutil listlocalsnapshots /), Xcode DerivedData.",
    );
    Alert { key, title: "vigil: low disk space".to_string(), message, target: None, command: None }
}

fn find_low_disks(disks: &Vec<DiskInfo>, out: &mut Vec<Alert>)
    ensures
        views(final(out)@) == views(old(out)@) + low_disks(disks@),
{
    let ghost before = out@;
    let mut i: usize = 0;
    assert(views(out@) == views(before) + low_disks(disks@.take(0)));
    while i < disks.len()
        invariant
            i <= disks@.len(),
            views(out@) == views(before) + low_disks(disks@.take(i as int)),
        decreases disks@.len() - i,
    {
        let ghost had = out@;
        assert(disks@.take(i + 1).drop_last() == disks@.take(i as int));
        if disks[i].available_bytes < LOW_DISK_AVAILABLE_BYTES {
            let alert = low_disk_alert(&disks[i]);
            out.push(alert);
            assert(views(out@) == views(had).push(alert@));
        }
        assert(views(out@) == views(before) + low_disks(disks@.take(i + 1)));
        i = i + 1;
    }
    assert(disks@.take(i as int) == disks@);
}

/// Brings the streaks up to date with the busiest processes of a sample.
fn update_streaks(streaks: &mut HashMap<u32, u32>, procs: &Vec<ProcInfo>)
    ensures
        final(streaks)@ == next_streaks(old(streaks)@, procs@),
{
    broadcast use vstd::std_specs::hash::group_hash_axioms;

    let ghost before = streaks@;
    let mut i: usize = 0;
    assert(procs@.take(0) == Seq::<ProcInfo>::empty());
    while i < procs.len()
        invariant
            i <= procs@.len(),
            streaks@ == streaks_after(before, procs@.take(i as int)),
        decreases procs@.len() - i,
    {
        broadcast use vstd::std_specs::hash::group_hash_axioms;

        let p = &procs[i];
        assert(procs@.take(i + 1).drop_last() == procs@.take(i as int));
        if p.cpu_pct.bits > CPU_HOG_THRESHOLD_PCT * ONE {
            let n: u32 = match streaks.get(&p.pid) {
                Some(n) => n.saturating_add(1),
                None => 1,
            };
            streaks.insert(p.pid, n);
        } else {
            streaks.remove(&p.pid);
        }
        i = i + 1;
    }
    assert(procs@.take(i as int) == procs@);
    let ghost full = streaks@;
    let mut kept: HashMap<u32, u32> = HashMap::new();
    let mut i: usize = 0;
    while i < procs.len()
        invariant
            i <= procs@.len(),
            streaks@ == full,
            kept@ == full.restrict(pids(procs@.take(i as int))),
        decreases procs@.len() - i,
    {
        broadcast use vstd::std_specs::hash::group_hash_axioms;

        let pid: u32 = procs[i].pid;
        let ghost less = procs@.take(i as int).map_values(|p: ProcInfo| p.pid);
        let ghost more = procs@.take(i + 1).map_values(|p: ProcInfo| p.pid);
        proof {
            assert(more =~= less.push(pid));
            less.lemma_push_to_set_commute(pid);
        }
        if let Some(n) = streaks.get(&pid) {
            kept.insert(pid, *n);
        }
        assert(kept@ =~= full.restrict(pids(procs@.take(i + 1))));
        i = i + 1;
    }
    assert(procs@.take(i as int) == procs@);
    *streaks = kept;
}

fn find_cpu_hog(streaks: &HashMap<u32, u32>, procs: &Vec<ProcInfo>, out: &mut Vec<Alert>)
    ensures
        views(final(out)@) == views(old(out)@) + cpu_hog(streaks@, procs@),
{
    broadcast use vstd::std_specs::hash::group_hash_axioms;

    let ghost before = out@;
    let mut i: usize = 0;
    assert(procs@.skip(0) == procs@);
    while i < procs.len()
        invariant
            i <= procs@.len(),
            before == old(out)@,
            out@ == before,
            cpu_hog(streaks@, procs@) == cpu_hog(streaks@, procs@.skip(i as int)),
        decreases procs@.len() - i,
    {
        broadcast use vstd::std_specs::hash::group_hash_axioms;

        let p = &procs[i];
        assert(procs@.skip(i as int)[0] == *p);
        assert(procs@.skip(i as int).skip(1) == procs@.skip(i + 1));
        if let Some(n) = streaks.get(&p.pid) {
            if *n >= CPU_HOG_STREAK_REQUIRED {
                let mut key = "cpu_hog:".to_string();
                append_number(&mut key, p.pid as u64);
                let mut message = p.name.clone();
                message.append(" (pid ");
                append_number(&mut message, p.pid as u64);
                message.append(") has held ");
                message.append(units_text(p.cpu_pct.bits as u128, ONE as u128).as_str());
                message.append("% CPU for ");
                append_number(&mut message, *n as u64);
                message.append(
                    " consecutive samples. Suggestion: check the process and decide whether to restart it.",
                );
                message.append(self_note_text(p.name.as_str()).as_str());
                out.push(
                    Alert {
                        key,
                        title: "vigil: process hogging CPU".to_string(),
                        message,
                        target: Some(p.name.clone()),
                        command: Some(p.cmd.clone()),
                    },
                );
                assert(out@ == before.push(out@.last()));
                assert(views(out@) == views(before) + cpu_hog(streaks@, procs@));
                return;
            }
        }
        i = i + 1;
    }
    assert(procs@.skip(i as int) == Seq::<ProcInfo>::empty());
    assert(views(out@) == views(before) + cpu_hog(streaks@, procs@));
}

fn find_connection_alerts(connections: &Option<ConnectionCounts>, out: &mut Vec<Alert>)
    ensures
        views(final(out)@) == views(old(out)@) + connection_alerts(*connections),
{
    let ghost before = out@;
    if let Some(c) = connections {
        if c.total > HIGH_CONNECTION_COUNT_THRESHOLD {
            let mut message: String = String::new();
            append_number(&mut message, c.total as u64);
            assert(message@ == decimal(c.total as nat));
            message.append(" TCP connections (");
            append_number(&mut message, c.established as u64);
            message.append(" established, ");
            append_number(&mut message, c.time_wait as u64);
            message.append(" in TIME_WAIT, ");
            append_number(&mut message, c.close_wait as u64);
            message.append(
                " in CLOSE_WAIT). Suggestion: check which process keeps opening them.",
            );
            out.push(
                Alert {
                    key: "high_connection_count".to_string(),
                    title: "vigil: high connection count".to_string(),
                    message,
                    target: None,
                    command: None,
                },
            );
            assert(out@ == before.push(out@.last()));
        }
        assert(views(out@) == views(before) + high_connection_count(*c));
        let ghost had = out@;
        if c.incoming > INCOMING_CONNECTIONS_THRESHOLD {
            let mut message: String = String::new();
            append_number(&mut message, c.incoming as u64);
            assert(message@ == decimal(c.incoming as nat));
            message.append(
                " established connections from other machines to services on this one. Suggestion: check which services are reachable from the network.",
            );
            out.push(
                Alert {
                    key: "incoming_connections".to_string(),
                    title: "vigil: incoming connections".to_string(),
                    message,
                    target: None,
                    command: None,
                },
            );
            assert(out@ == had.push(out@.last()));
        }
        assert(views(out@) == views(had) + incoming_connections(*c));
    }
    assert(views(out@) == views(before) + connection_alerts(*connections));
}

fn process_count_alert(group: &ProcGroup) -> (r: Alert)
    ensures
        r@ == high_process_count(*group),
{
    let mut key = "high_process_count:".to_string();
    key.append(group.name.as_str());
    let mut message: String = String::new();
    append_number(&mut message, group.count as u64);
    assert(message@ == decimal(group.count as nat));
    message.append(" ");
    message.append(group.name.as_str());
    message.append(" processes at ");
    message.append(units_text(group.total_cpu_pct.bits as u128, ONE as u128).as_str());
    message.append("% combined CPU — possibly leaked. Oldest: ");
    message.append(samples_line(&group.oldest).as_str());
    message.append(". Suggestion: check what they belong to before ending any of them.");
    Alert {
        key,
        title: "vigil: many idle processes".to_string(),
        message,
        target: Some(group.name.clone()),
        command: None,
    }
}

fn find_leaked_groups(groups: &Vec<ProcGroup>, out: &mut Vec<Alert>)
    ensures
        views(final(out)@) == views(old(out)@) + leaked_groups(groups@),
{
    let ghost before = out@;
    let mut i: usize = 0;
    assert(views(out@) == views(before) + leaked_groups(groups@.take(0)));
    while i < groups.len()
        invariant
            i <= groups@.len(),
            views(out@) == views(before) + leaked_groups(groups@.take(i as int)),
        decreases groups@.len() - i,
    {
        let ghost had = out@;
        assert(groups@.take(i + 1).drop_last() == groups@.take(i as int));
        let g = &groups[i];
        if g.count > PROCESS_COUNT_THRESHOLD && g.total_cpu_pct.bits < LEAKED_GROUP_CPU_IDLE_PCT
            * ONE {
            let alert = process_count_alert(g);
            out.push(alert);
            assert(views(out@) == views(had).push(alert@));
        }
        assert(views(out@) == views(before) + leaked_groups(groups@.take(i + 1)));
        i = i + 1;
    }
    assert(groups@.take(i as int) == groups@);
}

/// Holds a snapshot against the rules and returns the alerts that are due:
/// those not held back by the cooldown of their rule.
pub fn evaluate(
    snap: &Snapshot,
    cpu_count: usize,
    state: &mut AlertState,
    cooldown: u128,
    now: u64,
) -> (r: Vec<Alert>)
    ensures
        final(state).cpu_hog_streak@ == next_streaks(old(state).cpu_hog_streak@, snap.top_cpu@),
        (final(state).last_fired@, views(r@)) == fire(
            old(state).last_fired@,
            cooldown as nat,
            now,
            findings(*snap, cpu_count, final(state).cpu_hog_streak@),
        ),
{
    evaluate_if(true, snap, cpu_count, state, cooldown, now)
}

fn load_threshold_of(cpu_count: usize) -> (r: u128)
    ensures
        r == load_threshold(cpu_count),
        r <= 0x10_0000_0000_0000_0000,
{
    let cores: u128 = if cpu_count == 0 {
        1
    } else {
        cpu_count as u128
    };
    whole_of(whole_of(cores, DOUBLE) * 3, DOUBLE)
}

/// Whether the load average is too high for the machine.
pub fn is_load_high(snap: &Snapshot, cpu_count: usize) -> (r: bool)
    ensures
        r == load_is_high(*snap, cpu_count),
{
    let threshold = load_threshold_of(cpu_count);
    assert(threshold * ONE <= u128::MAX) by (nonlinear_arith)
        requires
            threshold <= 0x10_0000_0000_0000_0000,
            ONE == 4294967296,
    ;
    snap.load_avg.one.bits as u128 * 2 > threshold * ONE as u128
}

/// Holds a snapshot against the rules, that about the load only where
/// `load_counts`, and returns the alerts that are due.
pub fn evaluate_if(
    load_counts: bool,
    snap: &Snapshot,
    cpu_count: usize,
    state: &mut AlertState,
    cooldown: u128,
    now: u64,
) -> (r: Vec<Alert>)
    ensures
        final(state).cpu_hog_streak@ == next_streaks(old(state).cpu_hog_streak@, snap.top_cpu@),
        (final(state).last_fired@, views(r@)) == fire(
            old(state).last_fired@,
            cooldown as nat,
            now,
            findings_if(load_counts, *snap, cpu_count, final(state).cpu_hog_streak@),
        ),
{
    let mut found: Vec<Alert> = Vec::new();
    if load_counts {
        find_high_load(snap, cpu_count, &mut found);
    }
    find_swap_pressure(snap, &mut found);
    find_low_memory(snap, &mut found);
    find_low_disks(&snap.disks, &mut found);
    update_streaks(&mut state.cpu_hog_streak, &snap.top_cpu);
    find_cpu_hog(&state.cpu_hog_streak, &snap.top_cpu, &mut found);
    find_connection_alerts(&snap.connections, &mut found);
    find_leaked_groups(&snap.top_mem_groups, &mut found);
    let ghost all = findings_if(load_counts, *snap, cpu_count, state.cpu_hog_streak@);
    assert(views(found@) == all);
    let ghost last = state.last_fired@;
    let ghost streaks = state.cpu_hog_streak;
    let ghost alerts = found@;
    let mut out: Vec<Alert> = Vec::new();
    let mut n: usize = 0;
    let total: usize = found.len();
    let mut rest = reversed(found);
    assert(views(out@) == Seq::<AlertView>::empty());
    while n < total
        invariant
            n <= total,
            total == alerts.len(),
            rest@.len() == total - n,
            forall|i: int| 0 <= i < rest@.len() ==> (#[trigger] rest@[i]) == alerts[total - 1 - i],
            views(alerts) == all,
            state.cpu_hog_streak == streaks,
            (state.last_fired@, views(out@)) == fire(last, cooldown as nat, now, all.take(n as int)),
        decreases total - n,
    {
        let ghost had = out@;
        assert(all.take(n + 1).drop_last() == all.take(n as int));
        match rest.pop() {
            Some(alert) => {
                assert(alert == alerts[n as int]);
                assert(all[n as int] == alert@);
                state.try_fire(now, cooldown, alert, &mut out);
                proof {
                    if out@ != had {
                        assert(views(out@) == views(had).push(alert@));
                    }
                }
            },
            None => {},
        }
        n = n + 1;
    }
    assert(all.take(n as int) == all);
    out
}

fn low_charge_of(snap: &Snapshot) -> (r: Option<u8>)
    ensures
        r == low_charge(*snap),
{
    match &snap.battery {
        Some(b) => match (b.charging, b.percentage) {
            (Some(false), Some(pct)) => if pct <= BATTERY_LOW_PCT {
                Some(pct)
            } else {
                None
            },
            _ => None,
        },
        None => None,
    }
}

/// Holds a snapshot against the battery's own rule, and returns its alert if
/// that is due. `battery_eta` is how long the battery lasts, in nanoseconds.
pub fn evaluate_battery(
    snap: &Snapshot,
    battery_eta: Option<u128>,
    state: &mut AlertState,
    cooldown: u128,
    now: u64,
) -> (r: Vec<Alert>)
    ensures
        final(state).cpu_hog_streak == old(state).cpu_hog_streak,
        (final(state).last_fired@, views(r@)) == fire(
            old(state).last_fired@,
            cooldown as nat,
            now,
            low_battery(*snap, battery_eta),
        ),
{
    let mut out: Vec<Alert> = Vec::new();
    let ghost found = low_battery(*snap, battery_eta);
    let ghost last = state.last_fired@;
    assert(views(out@) == Seq::<AlertView>::empty());
    if let Some(pct) = low_charge_of(snap) {
        if snap.top_cpu.len() > 0 {
            let top = &snap.top_cpu[0];
            let mut left: String = String::new();
            if let Some(d) = battery_eta {
                left = ", ~".to_string();
                left.append(format_eta(d).as_str());
                left.append(" left");
            }
            let mut message = "Battery at ".to_string();
            append_number(&mut message, pct as u64);
            message.append("%");
            message.append(left.as_str());
            message.append(". Top CPU consumer: ");
            message.append(top.name.as_str());
            message.append(" (");
            message.append(units_text(top.cpu_pct.bits as u128, ONE as u128).as_str());
            message.append("% CPU). Suggestion: close it if it is not needed, or plug in.");
            message.append(self_note_text(top.name.as_str()).as_str());
            let alert = Alert {
                key: "battery_low".to_string(),
                title: "vigil: low battery".to_string(),
                message,
                target: Some("battery_low".to_string()),
                command: Some(top.cmd.clone()),
            };
            proof {
                assert(alert@ == found[0]);
                assert(found.drop_last() == Seq::<AlertView>::empty());
                assert(fire(last, cooldown as nat, now, found.drop_last()).1 == Seq::<
                    AlertView,
                >::empty());
            }
            state.try_fire(now, cooldown, alert, &mut out);
            proof {
                if out@.len() > 0 {
                    assert(views(out@) == Seq::<AlertView>::empty().push(alert@));
                } else {
                    assert(views(out@) == Seq::<AlertView>::empty());
                }
            }
        }
    }
    out
}

/// Findings that are looked at one after the other fire as they would
/// together.
pub(crate) proof fn lemma_fire_more(
    last: Map<Seq<char>, u64>,
    cooldown: nat,
    now: u64,
    found: Seq<AlertView>,
    more: Seq<AlertView>,
)
    ensures
        ({
            let (fired, out) = fire(last, cooldown, now, found);
            let (then, added) = fire(fired, cooldown, now, more);
            fire(last, cooldown, now, found + more) == (then, out + added)
        }),
    decreases more.len(),
{
    let (fired, out) = fire(last, cooldown, now, found);
    if more.len() == 0 {
        assert(found + more == found);
        assert(out + Seq::<AlertView>::empty() == out);
    } else {
        lemma_fire_more(last, cooldown, now, found, more.drop_last());
        assert((found + more).drop_last() == found + more.drop_last());
        assert((found + more).last() == more.last());
        let (then, added) = fire(fired, cooldown, now, more.drop_last());
        assert((out + added).push(more.last()) == out + added.push(more.last()));
    }
}

fn reversed(v: Vec<Alert>) -> (r: Vec<Alert>)
    ensures
        r@.len() == v@.len(),
        forall|i: int| 0 <= i < r@.len() ==> (#[trigger] r@[i]) == v@[v@.len() - 1 - i],
{
    let ghost all = v@;
    let mut v = v;
    let mut r: Vec<Alert> = Vec::new();
    while v.len() > 0
        invariant
            r@.len() + v@.len() == all.len(),
            v@ == all.take(v@.len() as int),
            forall|i: int| 0 <= i < r@.len() ==> (#[trigger] r@[i]) == all[all.len() - 1 - i],
        decreases v@.len(),
    {
        let last = v.len() - 1;
        let a = v.remove(last);
        r.push(a);
    }
    r
}

// -------------------------------------------------------------- incidents

/// A firing starts a new incident: it has no target to be compared by, or its
/// target has never fired, or has been quiet for longer than `timeout`.
pub open spec fn starts_incident(
    last: Map<Seq<char>, u64>,
    target: Option<Seq<char>>,
    timeout: nat,
    now: u64,
) -> bool {
    match target {
        Some(t) => last.contains_key(t) ==> since(now, last[t]) > timeout,
        None => true,
    }
}

/// When each target last fired, once `target` has fired at `now`.
pub open spec fn fired_at(
    last: Map<Seq<char>, u64>,
    target: Option<Seq<char>>,
    now: u64,
) -> Map<Seq<char>, u64> {
    match target {
        Some(t) => last.insert(t, now),
        None => last,
    }
}

pub open spec fn optional_str(s: Option<&str>) -> Option<Seq<char>> {
    match s {
        Some(t) => Some(t@),
        None => None,
    }
}

/// Tells a repeated firing of something that is still going on from a new
/// incident, by when its target last fired. Whether an incident is open
/// depends on nothing else: taking an action does not close it.
pub struct IncidentTracker {
    pub last_seen: Stamps,
}

impl IncidentTracker {
    pub fn new() -> (r: Self)
        ensures
            r.last_seen@ == Map::<Seq<char>, u64>::empty(),
    {
        IncidentTracker { last_seen: Stamps::new() }
    }

    /// Records that `target` fired, and says whether that is a new incident.
    pub fn is_new_incident(&mut self, target: Option<&str>, timeout: u128, now: u64) -> (r: bool)
        ensures
            r == starts_incident(
                old(self).last_seen@,
                optional_str(target),
                timeout as nat,
                now,
            ),
            final(self).last_seen@ == fired_at(old(self).last_seen@, optional_str(target), now),
    {
        match target {
            None => true,
            Some(t) => {
                let new = match self.last_seen.get(t) {
                    Some(then) => now.saturating_sub(then) as u128 > timeout,
                    None => true,
                };
                self.last_seen.set(t, now);
                new
            },
        }
    }

    /// How many targets have an incident open: fired at most `timeout` ago.
    pub fn open_count(&self, timeout: u128, now: u64) -> (r: usize)
        ensures
            r == recent(self.last_seen@, timeout as nat, now).len(),
            recent(self.last_seen@, timeout as nat, now).finite(),
    {
        self.last_seen.count_recent(timeout, now)
    }
}

// ---------------------------------------------------------------- quoting

/// `s` as it stands between the quotes of an AppleScript string.
pub open spec fn escaped(s: Seq<char>) -> Seq<char>
    decreases s.len(),
{
    if s.len() == 0 {
        Seq::empty()
    } else if s[0] == '\\' || s[0] == '"' {
        seq!['\\', s[0]] + escaped(s.skip(1))
    } else {
        seq![s[0]] + escaped(s.skip(1))
    }
}

/// What stands between the quotes of an AppleScript string means.
pub open spec fn unescaped(s: Seq<char>) -> Seq<char>
    decreases s.len(),
{
    if s.len() == 0 {
        Seq::empty()
    } else if s[0] == '\\' && s.len() > 1 {
        seq![s[1]] + unescaped(s.skip(2))
    } else {
        seq![s[0]] + unescaped(s.skip(1))
    }
}

/// Quotes `s` as an AppleScript string.
pub fn osa_quote(s: &str) -> (r: String)
    ensures
        r@ == seq!['"'] + escaped(s@) + seq!['"'],
{
    let cs = chars_of(s);
    let mut r: String = String::new();
    r.push('"');
    let mut i: usize = 0;
    assert(cs@.skip(0) == cs@);
    assert(r@ + escaped(cs@.skip(0)) == seq!['"'] + escaped(s@));
    while i < cs.len()
        invariant
            i <= cs@.len(),
            r@ + escaped(cs@.skip(i as int)) == seq!['"'] + escaped(s@),
        decreases cs@.len() - i,
    {
        let c = cs[i];
        let ghost rest = cs@.skip(i as int);
        let ghost had = r@;
        assert(rest[0] == c && rest.skip(1) == cs@.skip(i + 1));
        if c == '\\' || c == '"' {
            r.push('\\');
        }
        r.push(c);
        assert(r@ + escaped(cs@.skip(i + 1)) == had + escaped(rest));
        i = i + 1;
    }
    assert(cs@.skip(i as int) == Seq::<char>::empty());
    assert(r@ == seq!['"'] + escaped(s@));
    r.push('"');
    r
}

// ------------------------------------------------------------------- laws

/// Quoting keeps the text: read as AppleScript, what stands between the
/// quotes is what was quoted, and no quote in it ends the string early.
pub proof fn law_quoting_keeps_text(s: Seq<char>)
    ensures
        unescaped(escaped(s)) == s,
        closes_at_end(escaped(s)),
    decreases s.len(),
{
    if s.len() > 0 {
        let rest = s.skip(1);
        law_quoting_keeps_text(rest);
        let e = escaped(s);
        if s[0] == '\\' || s[0] == '"' {
            assert(e.skip(2) == escaped(rest));
            assert(e[0] == '\\' && e[1] == s[0]);
        } else {
            assert(e.skip(1) == escaped(rest));
            assert(e[0] == s[0]);
        }
        assert(s == seq![s[0]] + rest);
    }
}

/// No quote stands in `s` but behind a backslash.
pub open spec fn closes_at_end(s: Seq<char>) -> bool
    decreases s.len(),
{
    if s.len() == 0 {
        true
    } else if s[0] == '\\' {
        s.len() > 1 && closes_at_end(s.skip(2))
    } else {
        s[0] != '"' && closes_at_end(s.skip(1))
    }
}

/// Within its cooldown a rule does not fire again, whatever is found.
pub proof fn law_quiet_within_cooldown(
    last: Map<Seq<char>, u64>,
    cooldown: nat,
    now: u64,
    found: Seq<AlertView>,
    key: Seq<char>,
)
    requires
        last.contains_key(key),
        since(now, last[key]) < cooldown,
    ensures
        forall|i: int|
            0 <= i < fire(last, cooldown, now, found).1.len() ==> (#[trigger] fire(
                last,
                cooldown,
                now,
                found,
            ).1[i]).key != key,
        fire(last, cooldown, now, found).0.contains_key(key),
        fire(last, cooldown, now, found).0[key] == last[key],
    decreases found.len(),
{
    if found.len() > 0 {
        law_quiet_within_cooldown(last, cooldown, now, found.drop_last(), key);
    }
}

/// A rule that is ready fires as soon as it finds something: among the alerts
/// is one with its key, and from then on it counts as having fired now.
pub proof fn law_ready_rule_fires(
    last: Map<Seq<char>, u64>,
    cooldown: nat,
    now: u64,
    found: Seq<AlertView>,
    k: int,
)
    requires
        0 <= k < found.len(),
        is_ready(last, found[k].key, cooldown, now),
    ensures
        exists|i: int|
            0 <= i < fire(last, cooldown, now, found).1.len() && (#[trigger] fire(
                last,
                cooldown,
                now,
                found,
            ).1[i]).key == found[k].key,
        fire(last, cooldown, now, found).0.contains_key(found[k].key),
        fire(last, cooldown, now, found).0[found[k].key] == now,
    decreases found.len(),
{
    let less = found.drop_last();
    let (fired, out) = fire(last, cooldown, now, less);
    let all = fire(last, cooldown, now, found).1;
    if k < less.len() {
        law_ready_rule_fires(last, cooldown, now, less, k);
        let i = choose|i: int| 0 <= i < out.len() && (#[trigger] out[i]).key == less[k].key;
        assert(all[i].key == found[k].key);
    } else {
        let key = found[k].key;
        lemma_fired_or_untouched(last, cooldown, now, less, key);
        if is_ready(fired, key, cooldown, now) {
            assert(all[out.len() as int].key == key);
        } else {
            let i = choose|i: int| 0 <= i < out.len() && (#[trigger] out[i]).key == key;
            assert(all[i].key == key);
        }
    }
}

/// A rule either fired, now, or its memory is as it was.
proof fn lemma_fired_or_untouched(
    last: Map<Seq<char>, u64>,
    cooldown: nat,
    now: u64,
    found: Seq<AlertView>,
    key: Seq<char>,
)
    ensures
        ({
            let (fired, out) = fire(last, cooldown, now, found);
            ||| fired.contains_key(key) && fired[key] == now && exists|i: int|
                0 <= i < out.len() && (#[trigger] out[i]).key == key
            ||| fired.contains_key(key) == last.contains_key(key) && (last.contains_key(key)
                ==> fired[key] == last[key])
        }),
    decreases found.len(),
{
    if found.len() > 0 {
        let less = found.drop_last();
        let (fired, out) = fire(last, cooldown, now, less);
        let all = fire(last, cooldown, now, found).1;
        lemma_fired_or_untouched(last, cooldown, now, less, key);
        if exists|i: int| 0 <= i < out.len() && (#[trigger] out[i]).key == key {
            let i = choose|i: int| 0 <= i < out.len() && (#[trigger] out[i]).key == key;
            assert(all[i].key == key);
        }
        if found.last().key == key && is_ready(fired, key, cooldown, now) {
            assert(all[out.len() as int].key == key);
        }
    }
}

/// What fired once does not fire again until its cooldown is over, and fires
/// again after that.
pub proof fn law_cooldown(
    last: Map<Seq<char>, u64>,
    cooldown: nat,
    now: u64,
    found: Seq<AlertView>,
    i: int,
    later: u64,
    found_later: Seq<AlertView>,
    k: int,
)
    requires
        0 <= i < fire(last, cooldown, now, found).1.len(),
        0 <= k < found_later.len(),
        found_later[k].key == fire(last, cooldown, now, found).1[i].key,
    ensures
        ({
            let key = found_later[k].key;
            let out = fire(fire(last, cooldown, now, found).0, cooldown, later, found_later).1;
            (exists|j: int| 0 <= j < out.len() && (#[trigger] out[j]).key == key) <==> since(
                later,
                now,
            ) >= cooldown
        }),
{
    let key = found_later[k].key;
    let fired = fire(last, cooldown, now, found).0;
    lemma_output_is_recorded(last, cooldown, now, found, i);
    if since(later, now) >= cooldown {
        law_ready_rule_fires(fired, cooldown, later, found_later, k);
    } else {
        law_quiet_within_cooldown(fired, cooldown, later, found_later, key);
    }
}

proof fn lemma_output_is_recorded(
    last: Map<Seq<char>, u64>,
    cooldown: nat,
    now: u64,
    found: Seq<AlertView>,
    i: int,
)
    requires
        0 <= i < fire(last, cooldown, now, found).1.len(),
    ensures
        ({
            let (fired, out) = fire(last, cooldown, now, found);
            fired.contains_key(out[i].key) && fired[out[i].key] == now
        }),
    decreases found.len(),
{
    if found.len() > 0 {
        let (fired, out) = fire(last, cooldown, now, found.drop_last());
        if i < out.len() {
            lemma_output_is_recorded(last, cooldown, now, found.drop_last(), i);
        }
    }
}

/// The processes have different pids.
pub open spec fn pids_differ(procs: Seq<ProcInfo>) -> bool {
    forall|i: int, j: int|
        #![trigger procs[i], procs[j]]
        0 <= i < j < procs.len() ==> procs[i].pid != procs[j].pid
}

proof fn lemma_streak_of(streaks: Map<u32, u32>, procs: Seq<ProcInfo>, pid: u32)
    requires
        pids_differ(procs),
    ensures
        ({
            let after = streaks_after(streaks, procs);
            &&& forall|k: int|
                0 <= k < procs.len() && (#[trigger] procs[k]).pid == pid ==> if is_hog(procs[k]) {
                    after.contains_key(pid) && after[pid] == longer(streaks, pid)
                } else {
                    !after.contains_key(pid)
                }
            &&& (forall|k: int| 0 <= k < procs.len() ==> (#[trigger] procs[k]).pid != pid)
                ==> after.contains_key(pid) == streaks.contains_key(pid) && (after.contains_key(
                pid,
            ) ==> after[pid] == streaks[pid])
        }),
    decreases procs.len(),
{
    if procs.len() > 0 {
        let less = procs.drop_last();
        assert(pids_differ(less)) by {
            assert forall|i: int, j: int|
                #![trigger less[i], less[j]]
                0 <= i < j < less.len() implies less[i].pid != less[j].pid by {
                assert(procs[i].pid != procs[j].pid);
            }
        }
        lemma_streak_of(streaks, less, pid);
        let last = procs.len() - 1;
        assert forall|k: int| 0 <= k < procs.len() && (#[trigger] procs[k]).pid == pid implies (if is_hog(
            procs[k],
        ) {
            streaks_after(streaks, procs).contains_key(pid) && streaks_after(streaks, procs)[pid]
                == longer(streaks, pid)
        } else {
            !streaks_after(streaks, procs).contains_key(pid)
        }) by {
            if k < last {
                assert(less[k] == procs[k]);
                assert(procs[k].pid != procs[last].pid);
            } else {
                assert forall|j: int| 0 <= j < less.len() implies (#[trigger] less[j]).pid
                    != pid by {
                    assert(procs[j].pid != procs[last].pid);
                }
            }
        }
        if forall|k: int| 0 <= k < procs.len() ==> (#[trigger] procs[k]).pid != pid {
            assert forall|j: int| 0 <= j < less.len() implies (#[trigger] less[j]).pid != pid by {
                assert(less[j] == procs[j]);
            }
            assert(procs[last].pid != pid);
        }
    }
}

/// A streak grows by one sample at a time, ends when the process calms down,
/// and is forgotten when the process is no longer among the busiest.
pub proof fn law_streaks(streaks: Map<u32, u32>, procs: Seq<ProcInfo>, pid: u32)
    requires
        pids_differ(procs),
    ensures
        forall|k: int|
            0 <= k < procs.len() && (#[trigger] procs[k]).pid == pid && is_hog(procs[k])
                ==> next_streaks(streaks, procs).contains_key(pid) && next_streaks(
                streaks,
                procs,
            )[pid] == longer(streaks, pid),
        forall|k: int|
            0 <= k < procs.len() && (#[trigger] procs[k]).pid == pid && !is_hog(procs[k])
                ==> !next_streaks(streaks, procs).contains_key(pid),
        (forall|k: int| 0 <= k < procs.len() ==> (#[trigger] procs[k]).pid != pid)
            ==> !next_streaks(streaks, procs).contains_key(pid),
{
    lemma_streak_of(streaks, procs, pid);
    let ids = procs.map_values(|p: ProcInfo| p.pid);
    assert forall|k: int| 0 <= k < procs.len() && (#[trigger] procs[k]).pid == pid implies pids(
        procs,
    ).contains(pid) by {
        assert(ids[k] == pid);
    }
    if forall|k: int| 0 <= k < procs.len() ==> (#[trigger] procs[k]).pid != pid {
        assert(!pids(procs).contains(pid)) by {
            if pids(procs).contains(pid) {
                let k = choose|k: int| 0 <= k < ids.len() && ids[k] == pid;
                assert(procs[k].pid == pid);
            }
        }
    }
}

/// A process is reported as a hog only in the third sample in a row in which
/// it is one, and then it is.
pub proof fn law_hog_takes_three_samples(
    streaks: Map<u32, u32>,
    first: Seq<ProcInfo>,
    second: Seq<ProcInfo>,
    third: Seq<ProcInfo>,
    p1: int,
    p2: int,
    p3: int,
)
    requires
        pids_differ(first),
        pids_differ(second),
        pids_differ(third),
        0 <= p1 < first.len(),
        0 <= p2 < second.len(),
        0 <= p3 < third.len(),
        first[p1].pid == third[p3].pid,
        second[p2].pid == third[p3].pid,
        is_hog(first[p1]) && is_hog(second[p2]) && is_hog(third[p3]),
        !streaks.contains_key(third[p3].pid),
    ensures
        ({
            let one = next_streaks(streaks, first);
            let two = next_streaks(one, second);
            let three = next_streaks(two, third);
            &&& !is_sustained(one, first[p1])
            &&& !is_sustained(two, second[p2])
            &&& is_sustained(three, third[p3])
        }),
{
    let pid = third[p3].pid;
    let one = next_streaks(streaks, first);
    let two = next_streaks(one, second);
    law_streaks(streaks, first, pid);
    law_streaks(one, second, pid);
    law_streaks(two, third, pid);
}

/// Firing again within the timeout continues the incident; firing after it
/// starts a new one.
pub proof fn law_repeat_continues_incident(
    last: Map<Seq<char>, u64>,
    target: Seq<char>,
    timeout: nat,
    now: u64,
    later: u64,
)
    ensures
        starts_incident(fired_at(last, Some(target), now), Some(target), timeout, later) <==> since(
            later,
            now,
        ) > timeout,
{
}

/// A target that fires leaves every other target's incident as it is.
pub proof fn law_targets_are_independent(
    last: Map<Seq<char>, u64>,
    target: Option<Seq<char>>,
    other: Seq<char>,
    timeout: nat,
    now: u64,
    later: u64,
)
    requires
        target != Some(other),
    ensures
        starts_incident(fired_at(last, target, now), Some(other), timeout, later)
            == starts_incident(last, Some(other), timeout, later),
{
}

/// An incident is open exactly as long as a firing would not start a new one.
pub proof fn law_open_means_not_new(
    last: Map<Seq<char>, u64>,
    target: Seq<char>,
    timeout: nat,
    now: u64,
)
    ensures
        recent(last, timeout, now).contains(target) <==> !starts_incident(
            last,
            Some(target),
            timeout,
            now,
        ),
{
}

} // verus!
