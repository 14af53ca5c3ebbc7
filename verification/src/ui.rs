//! What the terminal dashboard remembers and what it says. Drawing it is
//! another matter.
use crate::alerts::{
    gigabytes, gigabytes_text, megabyte_tenths, megabyte_tenths_text, megabytes, megabytes_text, percent,
};
use crate::battery::{eta_text, format_eta};
use crate::float::{
    divide, is_above, multiply, quotient, ratio, ratio_of, times, whole, whole_of, DOUBLE, SINGLE,
};
use crate::number::{decimal, push_decimal, tenths, tenths_text, units_text, Fixed, ONE};
use crate::snapshot::{by_cpu, first, LoadAvg, ProcInfo};
use std::collections::{HashMap, VecDeque};
use crate::alert_laws::{lemma_mentions_within, mentions};
use crate::float::{lemma_above_a_tenth, lemma_at_most_all, lemma_percent, lemma_whole_exact};
use vstd::prelude::*;
use vstd::string::StringExecFns;

verus! {

pub const HISTORY_LEN: usize = 120;

/// In nanoseconds.
pub const ALERT_CHECK_INTERVAL: u128 = 10000000000;

pub const ALERT_LOG_LEN: usize = 5;

pub const PROC_TREND_LEN: usize = 10;

/// A process's memory has to change by more than this many parts of 2^55, from
/// the oldest sample to the newest, to count as a trend rather than noise: 0.1
/// in double precision.
pub const PROC_TREND_THRESHOLD: u64 = 3602879701896397;

/// 2^55.
pub const PROC_TREND_PARTS: u64 = 36028797018963968;

pub struct UiOptions {
    /// In nanoseconds.
    pub interval: u128,
    pub top_n: usize,
    pub notify: bool,
    /// In nanoseconds.
    pub cooldown: u128,
    pub agent_dir: String,
    pub incidents_dir: String,
}

// ---------------------------------------------------------------- history

/// `s` with `v` behind it, and without its first item where it was full.
pub open spec fn capped(s: Seq<u64>, v: u64, cap: nat) -> Seq<u64> {
    (if s.len() == cap && cap > 0 {
        s.skip(1)
    } else {
        s
    }).push(v)
}

/// Appends `v`, dropping the oldest item where the buffer is full.
pub fn push_capped(buf: &mut VecDeque<u64>, v: u64, cap: usize)
    ensures
        final(buf)@ == capped(old(buf)@, v, cap as nat),
{
    if buf.len() == cap {
        buf.pop_front();
    }
    buf.push_back(v);
}

/// A full buffer stays full, and what falls out is the oldest.
pub proof fn law_capped_keeps_latest(s: Seq<u64>, v: u64, cap: nat)
    requires
        s.len() <= cap,
        cap > 0,
    ensures
        capped(s, v, cap).len() <= cap,
        capped(s, v, cap).last() == v,
        capped(s, v, cap).drop_last().is_suffix_of(s),
        s.len() == cap ==> capped(s, v, cap).len() == cap,
{
    if s.len() == cap {
        assert(capped(s, v, cap).drop_last() == s.skip(1));
    } else {
        assert(capped(s, v, cap).drop_last() == s);
    }
}

/// A fraction to the nearest integer, a half upwards.
pub open spec fn rounded(x: Fixed) -> int {
    (x.bits + ONE / 2) / ONE as int
}

fn round(x: Fixed) -> (r: u64)
    ensures
        r == rounded(x),
{
    ((x.bits as u128 + (ONE / 2) as u128) / ONE as u128) as u64
}

/// The use of processor and memory over time, in percent, oldest first.
pub struct History {
    pub cpu: VecDeque<u64>,
    pub mem: VecDeque<u64>,
}

impl History {
    pub fn new() -> (r: Self)
        ensures
            r.cpu@ == Seq::<u64>::empty(),
            r.mem@ == Seq::<u64>::empty(),
    {
        History {
            cpu: VecDeque::with_capacity(HISTORY_LEN),
            mem: VecDeque::with_capacity(HISTORY_LEN),
        }
    }

    pub fn push(&mut self, cpu_pct: Fixed, mem_pct: Fixed)
        ensures
            final(self).cpu@ == capped(old(self).cpu@, rounded(cpu_pct) as u64, HISTORY_LEN as nat),
            final(self).mem@ == capped(old(self).mem@, rounded(mem_pct) as u64, HISTORY_LEN as nat),
    {
        push_capped(&mut self.cpu, round(cpu_pct), HISTORY_LEN);
        push_capped(&mut self.mem, round(mem_pct), HISTORY_LEN);
    }
}

// ----------------------------------------------------------------- trends

#[derive(PartialEq, Eq, Debug, Clone, Copy, Structural)]
pub enum Trend {
    Up,
    Down,
    Stable,
}

pub open spec fn arrow_text(t: Trend) -> Seq<char> {
    match t {
        Trend::Up => "↑"@,
        Trend::Down => "↓"@,
        Trend::Stable => "→"@,
    }
}

impl Trend {
    pub fn arrow(self) -> (r: &'static str)
        ensures
            r@ == arrow_text(self),
    {
        match self {
            Trend::Up => "↑",
            Trend::Down => "↓",
            Trend::Stable => "→",
        }
    }
}

/// By what part of `from` the quantity has changed, in double precision, where
/// `by` is how far the two are apart.
pub open spec fn change(from: nat, by: nat) -> (nat, nat) {
    quotient(whole(by, DOUBLE as nat), from, DOUBLE as nat)
}

/// The change is more than noise.
pub open spec fn is_real_change(from: nat, by: nat) -> bool {
    let q = change(from, by);
    q.0 * PROC_TREND_PARTS > PROC_TREND_THRESHOLD * q.1
}

/// Where a quantity is going. From nothing there is no going anywhere.
pub open spec fn trend_of(oldest: u64, newest: u64) -> Trend {
    let from = whole(oldest as nat, DOUBLE as nat);
    let to = whole(newest as nat, DOUBLE as nat);
    if oldest == 0 {
        Trend::Stable
    } else if to > from && is_real_change(from, (to - from) as nat) {
        Trend::Up
    } else if from > to && is_real_change(from, (from - to) as nat) {
        Trend::Down
    } else {
        Trend::Stable
    }
}

fn has_changed(from: u128, by: u128) -> (r: bool)
    requires
        0 < from <= 0x2_0000_0000_0000_0000,
        by <= 0x2_0000_0000_0000_0000,
    ensures
        r == is_real_change(from as nat, by as nat),
{
    assert(DOUBLE * from <= 9007199254740992 * 0x2_0000_0000_0000_0000) by (nonlinear_arith)
        requires
            DOUBLE == 9007199254740992,
            0 <= from <= 0x2_0000_0000_0000_0000,
    ;
    let n = whole_of(by, DOUBLE);
    let q = divide(n, from, DOUBLE);
    assert(q.0 * from <= 2 * n ==> q.0 <= 2 * n) by (nonlinear_arith)
        requires
            from >= 1,
            q.0 >= 0,
    ;
    is_above(q, PROC_TREND_THRESHOLD, PROC_TREND_PARTS)
}

/// Where a quantity is going: up or down by more than a tenth, or nowhere.
pub fn classify_trend(oldest: u64, newest: u64) -> (r: Trend)
    ensures
        r == trend_of(oldest, newest),
{
    if oldest == 0 {
        return Trend::Stable;
    }
    let from = whole_of(oldest as u128, DOUBLE);
    let to = whole_of(newest as u128, DOUBLE);
    if to > from && has_changed(from, to - from) {
        Trend::Up
    } else if from > to && has_changed(from, from - to) {
        Trend::Down
    } else {
        Trend::Stable
    }
}

/// The memory that each process used in the latest samples. A process can
/// rank at the top in one sample without that telling whether it just spiked
/// or has been growing for an hour.
pub struct ProcTrends {
    pub history: HashMap<u32, VecDeque<u64>>,
}

/// What a process used of memory in a sample.
#[derive(Clone, Copy, Debug, PartialEq, Eq, Structural)]
pub struct MemSample {
    pub pid: u32,
    pub mem_bytes: u64,
}

/// The samples by pid.
pub open spec fn windows(m: Map<u32, VecDeque<u64>>) -> Map<u32, Seq<u64>> {
    m.map_values(|d: VecDeque<u64>| d@)
}

/// The samples of a pid; none where there are none.
pub open spec fn window(m: Map<u32, Seq<u64>>, pid: u32) -> Seq<u64> {
    if m.contains_key(pid) {
        m[pid]
    } else {
        Seq::empty()
    }
}

/// The samples once those of `procs` have come in.
pub open spec fn sampled(m: Map<u32, Seq<u64>>, procs: Seq<MemSample>) -> Map<u32, Seq<u64>>
    decreases procs.len(),
{
    if procs.len() == 0 {
        m
    } else {
        let known = sampled(m, procs.drop_last());
        let p = procs.last();
        known.insert(p.pid, capped(window(known, p.pid), p.mem_bytes, PROC_TREND_LEN as nat))
    }
}

pub open spec fn sample_pids(procs: Seq<MemSample>) -> Set<u32> {
    procs.map_values(|p: MemSample| p.pid).to_set()
}

/// The trend of a window: between its first sample and its last, whatever is
/// in between.
pub open spec fn window_trend(w: Seq<u64>) -> Option<Trend> {
    if w.len() < 2 {
        None
    } else {
        Some(trend_of(w[0], w.last()))
    }
}

impl ProcTrends {
    pub fn new() -> (r: Self)
        ensures
            r.history@ == Map::<u32, VecDeque<u64>>::empty(),
    {
        ProcTrends { history: HashMap::new() }
    }

    /// Takes in a sample of every process that runs. One that no longer runs
    /// is forgotten.
    pub fn record(&mut self, procs: &Vec<MemSample>)
        ensures
            windows(final(self).history@) == sampled(windows(old(self).history@), procs@).restrict(
                sample_pids(procs@),
            ),
    {
        broadcast use vstd::std_specs::hash::group_hash_axioms;

        let ghost before = windows(self.history@);
        let mut i: usize = 0;
        assert(procs@.take(0) == Seq::<MemSample>::empty());
        while i < procs.len()
            invariant
                i <= procs@.len(),
                windows(self.history@) == sampled(before, procs@.take(i as int)),
            decreases procs@.len() - i,
        {
            broadcast use vstd::std_specs::hash::group_hash_axioms;

            let p = procs[i];
            let ghost had = self.history@;
            assert(procs@.take(i + 1).drop_last() == procs@.take(i as int));
            let mut buf = match self.history.remove(&p.pid) {
                Some(b) => b,
                None => VecDeque::with_capacity(PROC_TREND_LEN),
            };
            assert(buf@ == window(windows(had), p.pid));
            push_capped(&mut buf, p.mem_bytes, PROC_TREND_LEN);
            self.history.insert(p.pid, buf);
            assert(windows(self.history@) =~= windows(had).insert(p.pid, buf@));
            i = i + 1;
        }
        assert(procs@.take(i as int) == procs@);
        let ghost full = windows(self.history@);
        let mut kept: HashMap<u32, VecDeque<u64>> = HashMap::new();
        let mut i: usize = 0;
        assert(windows(kept@) =~= full.restrict(sample_pids(procs@.take(0))));
        while i < procs.len()
            invariant
                i <= procs@.len(),
                windows(kept@) =~= full.restrict(sample_pids(procs@.take(i as int))),
                windows(self.history@) =~= full.remove_keys(sample_pids(procs@.take(i as int))),
            decreases procs@.len() - i,
        {
            broadcast use vstd::std_specs::hash::group_hash_axioms;

            let pid: u32 = procs[i].pid;
            let ghost had = self.history@;
            let ghost kept_before = kept@;
            let ghost less = procs@.take(i as int).map_values(|p: MemSample| p.pid);
            let ghost more = procs@.take(i + 1).map_values(|p: MemSample| p.pid);
            proof {
                assert(more =~= less.push(pid));
                less.lemma_push_to_set_commute(pid);
                assert(sample_pids(procs@.take(i + 1)) == sample_pids(procs@.take(i as int)).insert(
                    pid,
                ));
            }
            if let Some(b) = self.history.remove(&pid) {
                assert(windows(had).contains_key(pid) && windows(had)[pid] == b@);
                kept.insert(pid, b);
                assert(windows(kept@) =~= windows(kept_before).insert(pid, b@));
            } else {
                assert(!windows(had).contains_key(pid));
            }
            assert(windows(self.history@) =~= windows(had).remove(pid));
            i = i + 1;
        }
        assert(procs@.take(i as int) == procs@);
        self.history = kept;
    }

    /// The trend of a process's memory. `None` until there are enough samples
    /// to say anything.
    pub fn mem_trend(&self, pid: u32) -> (r: Option<Trend>)
        ensures
            r == window_trend(window(windows(self.history@), pid)),
    {
        broadcast use vstd::std_specs::hash::group_hash_axioms;

        match self.history.get(&pid) {
            Some(buf) => if buf.len() < 2 {
                None
            } else {
                Some(classify_trend(buf[0], buf[buf.len() - 1]))
            },
            None => None,
        }
    }
}

// ------------------------------------------------------------------ state

/// What the dashboard has to know to draw a frame.
pub struct AppState {
    pub top_n: usize,
    pub input_mode: bool,
    pub input_buffer: String,
    pub thinking: bool,
    pub answer: Option<Result<String, String>>,
    /// The latest first.
    pub alert_log: VecDeque<String>,
    /// Looked at less often than the rest: `None` until it first was.
    pub battery_pct: Option<u8>,
    pub battery_charging: Option<bool>,
    pub battery_eta_secs: Option<u64>,
}

/// The log with a line in front, and without its last one where it was full.
pub open spec fn logged(log: Seq<String>, line: String) -> Seq<String> {
    seq![line] + if log.len() == ALERT_LOG_LEN {
        log.drop_last()
    } else {
        log
    }
}

impl AppState {
    pub fn new(top_n: usize) -> (r: Self)
        ensures
            r.top_n == top_n,
            !r.input_mode,
            r.input_buffer@ == Seq::<char>::empty(),
            !r.thinking,
            r.answer is None,
            r.alert_log@ == Seq::<String>::empty(),
            r.battery_pct is None,
            r.battery_charging is None,
            r.battery_eta_secs is None,
    {
        AppState {
            top_n,
            input_mode: false,
            input_buffer: String::new(),
            thinking: false,
            answer: None,
            alert_log: VecDeque::with_capacity(ALERT_LOG_LEN),
            battery_pct: None,
            battery_charging: None,
            battery_eta_secs: None,
        }
    }

    /// Puts a line in front of the log.
    pub fn push_alert(&mut self, line: String)
        ensures
            final(self).alert_log@ == logged(old(self).alert_log@, line),
            final(self).top_n == old(self).top_n,
            final(self).input_mode == old(self).input_mode,
            final(self).input_buffer == old(self).input_buffer,
            final(self).thinking == old(self).thinking,
            final(self).answer == old(self).answer,
            final(self).battery_pct == old(self).battery_pct,
            final(self).battery_charging == old(self).battery_charging,
            final(self).battery_eta_secs == old(self).battery_eta_secs,
    {
        let ghost before = self.alert_log@;
        if self.alert_log.len() == ALERT_LOG_LEN {
            self.alert_log.pop_back();
            assert(self.alert_log@ == before.drop_last());
        }
        self.alert_log.push_front(line);
    }
}

/// The log never grows beyond its limit, and the latest line comes first.
pub proof fn law_log_is_bounded(log: Seq<String>, line: String)
    requires
        log.len() <= ALERT_LOG_LEN,
    ensures
        logged(log, line).len() <= ALERT_LOG_LEN,
        logged(log, line)[0] == line,
        logged(log, line).skip(1).is_prefix_of(log),
{
    let all = logged(log, line);
    if log.len() == ALERT_LOG_LEN {
        assert(all.skip(1) == log.drop_last());
    } else {
        assert(all.skip(1) == log);
    }
}

// ---------------------------------------------------------------- wording

/// The question about the process that is busiest.
pub open spec fn why_text(name: Seq<char>, pid: u32, cpu_pct: Fixed, mem_bytes: u64) -> Seq<char> {
    "Why is "@ + name + " (pid "@ + decimal(pid as nat) + ") using "@ + percent(cpu_pct.bits)
        + "% CPU and "@ + megabytes(mem_bytes) + " MB memory right now?"@
}

/// The question about the process that is busiest.
pub fn why_question(name: &str, pid: u32, cpu_pct: Fixed, mem_bytes: u64) -> (r: String)
    ensures
        r@ == why_text(name@, pid, cpu_pct, mem_bytes),
{
    let mut r = "Why is ".to_string();
    r.append(name);
    r.append(" (pid ");
    push_decimal(&mut r, pid as u128);
    r.append(") using ");
    r.append(units_text(cpu_pct.bits as u128, ONE as u128).as_str());
    r.append("% CPU and ");
    r.append(megabytes_text(mem_bytes).as_str());
    r.append(" MB memory right now?");
    r
}

/// The share of the memory that is in use, in single precision and in units of
/// 2^-32 percent, as far as there is room for it.
pub open spec fn mem_bits(used: u64, total: u64) -> nat {
    let q = times(ratio(used as nat, total as nat, SINGLE as nat), 100, SINGLE as nat);
    let bits = q.0 * ONE as nat / q.1;
    if total == 0 {
        0
    } else if bits > u64::MAX {
        u64::MAX as nat
    } else {
        bits
    }
}

/// The share of the memory that is in use, in percent; nothing where there is
/// no memory.
pub fn mem_percent(used: u64, total: u64) -> (r: Fixed)
    ensures
        r.bits == mem_bits(used, total),
{
    if total == 0 {
        return Fixed { bits: 0 };
    }
    let (a, b) = multiply(ratio_of(used, total, SINGLE), 100, SINGLE);
    assert(a * ONE <= u128::MAX) by (nonlinear_arith)
        requires
            0 <= a <= 0x4_0000_0000_0000_0000 * 200,
            ONE == 4294967296,
    ;
    let bits: u128 = a * ONE as u128 / b;
    if bits > u64::MAX as u128 {
        Fixed { bits: u64::MAX }
    } else {
        Fixed { bits: bits as u64 }
    }
}

/// What there is to say about the battery.
pub open spec fn battery_text(
    pct: Option<u8>,
    charging: Option<bool>,
    eta_secs: Option<u64>,
) -> Seq<char> {
    match pct {
        None => "battery n/a"@,
        Some(p) => match charging {
            Some(true) => "battery "@ + decimal(p as nat) + "% (charging)"@,
            Some(false) => match eta_secs {
                Some(secs) => "battery "@ + decimal(p as nat) + "% (draining, ~"@ + eta_text(
                    secs as nat * 1000000000,
                ) + " left)"@,
                None => "battery "@ + decimal(p as nat) + "% (draining)"@,
            },
            None => "battery "@ + decimal(p as nat) + "%"@,
        },
    }
}

/// What there is to say about the battery.
pub fn battery_summary(app: &AppState) -> (r: String)
    ensures
        r@ == battery_text(app.battery_pct, app.battery_charging, app.battery_eta_secs),
{
    let pct = match app.battery_pct {
        Some(p) => p,
        None => {
            return "battery n/a".to_string();
        },
    };
    let mut r = "battery ".to_string();
    push_decimal(&mut r, pct as u128);
    match app.battery_charging {
        Some(true) => {
            r.append("% (charging)");
        },
        Some(false) => match app.battery_eta_secs {
            Some(secs) => {
                r.append("% (draining, ~");
                r.append(format_eta(secs as u128 * 1000000000).as_str());
                r.append(" left)");
            },
            None => {
                r.append("% (draining)");
            },
        },
        None => {
            r.append("%");
        },
    }
    r
}

/// What the header says besides the name of the program.
pub struct Header {
    pub load_avg: LoadAvg,
    pub mem_used: u64,
    pub mem_total: u64,
    pub swap_used: u64,
    pub cpu_pct: Fixed,
}

pub open spec fn header_text(h: Header, battery: Seq<char>) -> Seq<char> {
    "  load "@ + tenths(h.load_avg.one.bits as nat, ONE as nat) + " "@ + tenths(
        h.load_avg.five.bits as nat,
        ONE as nat,
    ) + " "@ + tenths(h.load_avg.fifteen.bits as nat, ONE as nat) + "   mem "@ + gigabytes(
        h.mem_used,
    ) + "/"@ + gigabytes(h.mem_total) + " GB   swap "@ + gigabytes(h.swap_used) + " GB   cpu "@
        + percent(h.cpu_pct.bits) + "%   "@ + battery
}

/// The line in the header.
pub fn header_line(h: &Header, app: &AppState) -> (r: String)
    ensures
        r@ == header_text(
            *h,
            battery_text(app.battery_pct, app.battery_charging, app.battery_eta_secs),
        ),
{
    let mut r = "  load ".to_string();
    r.append(tenths_text(h.load_avg.one.bits as u128, ONE as u128).as_str());
    r.append(" ");
    r.append(tenths_text(h.load_avg.five.bits as u128, ONE as u128).as_str());
    r.append(" ");
    r.append(tenths_text(h.load_avg.fifteen.bits as u128, ONE as u128).as_str());
    r.append("   mem ");
    r.append(gigabytes_text(h.mem_used).as_str());
    r.append("/");
    r.append(gigabytes_text(h.mem_total).as_str());
    r.append(" GB   swap ");
    r.append(gigabytes_text(h.swap_used).as_str());
    r.append(" GB   cpu ");
    r.append(units_text(h.cpu_pct.bits as u128, ONE as u128).as_str());
    r.append("%   ");
    r.append(battery_summary(app).as_str());
    r
}

/// The title above a sparkline: its name and its latest value.
pub open spec fn sparkline_text(name: Seq<char>, values: Seq<u64>) -> Seq<char> {
    " "@ + name + " "@ + decimal(
        if values.len() == 0 {
            0
        } else {
            values.last() as nat
        },
    ) + "% "@
}

/// The title above a sparkline: its name and its latest value.
pub fn sparkline_title(name: &str, values: &VecDeque<u64>) -> (r: String)
    ensures
        r@ == sparkline_text(name@, values@),
{
    let n = values.len();
    let last: u64 = if n == 0 {
        0
    } else {
        values[n - 1]
    };
    let mut r = " ".to_string();
    r.append(name);
    r.append(" ");
    push_decimal(&mut r, last as u128);
    r.append("% ");
    r
}

/// What the footer adds about the latest alert.
pub open spec fn footer_text(log: Seq<String>) -> Option<Seq<char>> {
    if log.len() == 0 {
        None
    } else {
        Some("   ⚠ "@ + log[0]@)
    }
}

/// What the footer adds about the latest alert.
pub fn footer_alert(app: &AppState) -> (r: Option<String>)
    ensures
        match r {
            Some(s) => footer_text(app.alert_log@) == Some(s@),
            None => footer_text(app.alert_log@) is None,
        },
{
    if app.alert_log.len() == 0 {
        None
    } else {
        let mut r = "   ⚠ ".to_string();
        r.append(app.alert_log[0].as_str());
        Some(r)
    }
}

/// `s` with spaces in front up to a width.
pub open spec fn padded(s: Seq<char>, width: nat) -> Seq<char> {
    if s.len() >= width {
        s
    } else {
        Seq::new((width - s.len()) as nat, |i: int| ' ') + s
    }
}

fn pad(s: String, width: usize) -> (r: String)
    ensures
        r@ == padded(s@, width as nat),
{
    let cs = crate::text::chars_of(s.as_str());
    let n = cs.len();
    if n >= width {
        return s;
    }
    let mut r: String = String::new();
    let mut i: usize = 0;
    while i < width - n
        invariant
            n < width,
            i <= width - n,
            r@ == Seq::new(i as nat, |i: int| ' '),
        decreases width - n - i,
    {
        r.push(' ');
        assert(r@ =~= Seq::new((i + 1) as nat, |i: int| ' '));
        i = i + 1;
    }
    r.append(s.as_str());
    r
}

/// A row of the table of processes.
#[derive(Debug)]
pub struct TableRow {
    pub pid: String,
    pub name: String,
    pub cpu: String,
    pub mem: String,
}

/// `row` is the row about a process.
pub open spec fn is_row(row: TableRow, p: ProcInfo, trend: Option<Trend>) -> bool {
    &&& row.pid@ == decimal(p.pid as nat)
    &&& row.name@ == p.name@
    &&& row.cpu@ == padded(tenths(p.cpu_pct.bits as nat, ONE as nat), 6) + "%"@
    &&& row.mem@ == padded(megabyte_tenths(p.mem_bytes), 8) + " MB "@ + match trend {
        Some(t) => arrow_text(t),
        None => " "@,
    }
}

fn row_for(p: &ProcInfo, trends: &ProcTrends) -> (r: TableRow)
    ensures
        is_row(r, *p, window_trend(window(windows(trends.history@), p.pid))),
{
    let arrow = match trends.mem_trend(p.pid) {
        Some(t) => t.arrow(),
        None => " ",
    };
    let mut cpu = pad(tenths_text(p.cpu_pct.bits as u128, ONE as u128), 6);
    cpu.append("%");
    let mut mem = pad(megabyte_tenths_text(p.mem_bytes), 8);
    mem.append(" MB ");
    mem.append(arrow);
    TableRow {
        pid: crate::number::decimal_text(p.pid as u128),
        name: p.name.clone(),
        cpu,
        mem,
    }
}

/// The rows of the table: the busiest processes, at most `top_n`. The arrow
/// says whether a process has been growing or shrinking, and is blank until
/// there are enough samples to say.
pub fn table_rows(procs: Vec<ProcInfo>, trends: &ProcTrends, top_n: usize) -> (r: Vec<TableRow>)
    ensures
        r@.len() == first(by_cpu(procs@), top_n as nat).len(),
        forall|i: int|
            0 <= i < r@.len() ==> is_row(
                #[trigger] r@[i],
                by_cpu(procs@)[i],
                window_trend(window(windows(trends.history@), by_cpu(procs@)[i].pid)),
            ),
{
    let busiest = crate::snapshot::busiest_first(procs);
    let mut r: Vec<TableRow> = Vec::new();
    let mut i: usize = 0;
    while i < busiest.len() && i < top_n
        invariant
            i <= busiest@.len(),
            i <= top_n,
            r@.len() == i,
            forall|k: int|
                0 <= k < r@.len() ==> is_row(
                    #[trigger] r@[k],
                    busiest@[k],
                    window_trend(window(windows(trends.history@), busiest@[k].pid)),
                ),
        decreases busiest@.len() - i,
    {
        r.push(row_for(&busiest[i], trends));
        i = i + 1;
    }
    r
}

/// What a box that is drawn over the dashboard is about.
#[derive(Debug, Clone, Copy, PartialEq, Eq, Structural)]
pub enum Popup {
    /// The question that is being typed.
    Input,
    /// The agent is being asked.
    Thinking,
    Answer,
    Failure,
}

impl Popup {
    /// How wide and how high the box is, in percent of the screen.
    pub fn size(self) -> (r: (u16, u16))
        ensures
            r == match self {
                Popup::Input => (70u16, 15u16),
                Popup::Thinking => (40u16, 15u16),
                Popup::Answer | Popup::Failure => (80u16, 60u16),
            },
    {
        match self {
            Popup::Input => (70, 15),
            Popup::Thinking => (40, 15),
            Popup::Answer | Popup::Failure => (80, 60),
        }
    }
}

/// A box that is drawn over the dashboard.
#[derive(Debug)]
pub struct PopupBox {
    pub kind: Popup,
    pub title: &'static str,
    pub body: String,
}

/// What is drawn over the dashboard, if anything: the question that is being
/// typed, else that the agent is being asked, else its answer.
pub open spec fn popup_text(app: AppState) -> Option<(Popup, Seq<char>, Seq<char>)> {
    if app.input_mode {
        Some(
            (
                Popup::Input,
                " ask agent (Enter to send, Esc to cancel) "@,
                app.input_buffer@ + "_"@,
            ),
        )
    } else if app.thinking {
        Some((Popup::Thinking, " vigil-agent "@, "Asking the agent..."@))
    } else {
        match app.answer {
            Some(Ok(text)) => Some(
                (Popup::Answer, " agent answer (Esc/Enter to close) "@, text@),
            ),
            Some(Err(error)) => Some(
                (Popup::Failure, " agent error (Esc/Enter to close) "@, error@),
            ),
            None => None,
        }
    }
}

/// `b` is that box.
pub open spec fn is_popup(b: Option<PopupBox>, text: Option<(Popup, Seq<char>, Seq<char>)>) -> bool {
    match b {
        Some(b) => text == Some((b.kind, b.title@, b.body@)),
        None => text is None,
    }
}

/// The box that is drawn over the dashboard, if any.
pub fn popup(app: &AppState) -> (r: Option<PopupBox>)
    ensures
        is_popup(r, popup_text(*app)),
{
    if app.input_mode {
        let mut body = app.input_buffer.clone();
        body.append("_");
        Some(
            PopupBox {
                kind: Popup::Input,
                title: " ask agent (Enter to send, Esc to cancel) ",
                body,
            },
        )
    } else if app.thinking {
        Some(
            PopupBox {
                kind: Popup::Thinking,
                title: " vigil-agent ",
                body: "Asking the agent...".to_string(),
            },
        )
    } else {
        match &app.answer {
            Some(Ok(text)) => Some(
                PopupBox {
                    kind: Popup::Answer,
                    title: " agent answer (Esc/Enter to close) ",
                    body: text.clone(),
                },
            ),
            Some(Err(error)) => Some(
                PopupBox {
                    kind: Popup::Failure,
                    title: " agent error (Esc/Enter to close) ",
                    body: error.clone(),
                },
            ),
            None => None,
        }
    }
}

/// Everything that a frame says.
#[derive(Debug)]
pub struct Screen {
    pub name: &'static str,
    pub header_title: &'static str,
    pub header: String,
    pub cpu_title: String,
    pub mem_title: String,
    pub table_title: &'static str,
    pub columns: Vec<&'static str>,
    pub rows: Vec<TableRow>,
    pub hint: &'static str,
    pub alert: Option<String>,
    pub popup: Option<PopupBox>,
}

/// Puts together everything that a frame says.
pub fn screen(
    header: &Header,
    procs: Vec<ProcInfo>,
    history: &History,
    trends: &ProcTrends,
    app: &AppState,
) -> (r: Screen)
    ensures
        r.name@ == " vigil "@,
        r.header_title@ == " system "@,
        r.header@ == header_text(
            *header,
            battery_text(app.battery_pct, app.battery_charging, app.battery_eta_secs),
        ),
        r.cpu_title@ == sparkline_text("CPU"@, history.cpu@),
        r.mem_title@ == sparkline_text("MEM"@, history.mem@),
        r.table_title@ == " top processes (by CPU) — mem trend over last 10 samples "@,
        r.columns@.len() == 4,
        r.columns@[0]@ == "PID"@,
        r.columns@[1]@ == "NAME"@,
        r.columns@[2]@ == "CPU"@,
        r.columns@[3]@ == "MEM"@,
        r.rows@.len() == first(by_cpu(procs@), app.top_n as nat).len(),
        forall|i: int|
            0 <= i < r.rows@.len() ==> is_row(
                #[trigger] r.rows@[i],
                by_cpu(procs@)[i],
                window_trend(window(windows(trends.history@), by_cpu(procs@)[i].pid)),
            ),
        r.hint@ == " q/esc: quit   a: ask agent   w: why is the top process using so much "@,
        match r.alert {
            Some(s) => footer_text(app.alert_log@) == Some(s@),
            None => footer_text(app.alert_log@) is None,
        },
        is_popup(r.popup, popup_text(*app)),
{
    Screen {
        name: " vigil ",
        header_title: " system ",
        header: header_line(header, app),
        cpu_title: sparkline_title("CPU", &history.cpu),
        mem_title: sparkline_title("MEM", &history.mem),
        table_title: " top processes (by CPU) — mem trend over last 10 samples ",
        columns: vec!["PID", "NAME", "CPU", "MEM"],
        rows: table_rows(procs, trends, app.top_n),
        hint: " q/esc: quit   a: ask agent   w: why is the top process using so much ",
        alert: footer_alert(app),
        popup: popup(app),
    }
}

// ------------------------------------------------------------------- laws

/// A full buffer loses its oldest value and nothing else; one that is not
/// full loses nothing. Histories are full with 120 values, the windows of
/// single processes with 10.
pub proof fn law_buffers(s: Seq<u64>, v: u64, cap: nat)
    ensures
        s.len() < cap ==> capped(s, v, cap) == s.push(v),
        s.len() == cap && cap > 0 ==> capped(s, v, cap) == s.skip(1).push(v),
        s.len() < 120 ==> capped(s, v, HISTORY_LEN as nat) == s.push(v),
        s.len() == 120 ==> capped(s, v, HISTORY_LEN as nat) == s.skip(1).push(v),
        s.len() < 10 ==> capped(s, v, PROC_TREND_LEN as nat) == s.push(v),
        s.len() == 10 ==> capped(s, v, PROC_TREND_LEN as nat) == s.skip(1).push(v),
{
}

/// A share is shown in the history to the nearest percent, a half upwards.
pub proof fn law_rounded(x: Fixed)
    ensures
        2 * (rounded(x) * 0x1_0000_0000) <= 2 * x.bits + 0x1_0000_0000,
        2 * x.bits < 2 * (rounded(x) * 0x1_0000_0000) + 0x1_0000_0000,
{
}

/// Memory is going up only when it has grown by more than a tenth and down
/// only when it has shrunk by more than a tenth, and always then, up to sizes
/// at which double precision cannot tell the change from a tenth any more.
pub proof fn law_trend(oldest: u64, newest: u64)
    requires
        oldest < 0x20_0000_0000_0000,
        newest < 0x20_0000_0000_0000,
    ensures
        oldest == 0 ==> trend_of(oldest, newest) == Trend::Stable,
        oldest > 0 && trend_of(oldest, newest) == Trend::Up ==> 10 * (newest - oldest) > oldest,
        oldest > 0 && trend_of(oldest, newest) == Trend::Down ==> 10 * (oldest - newest) > oldest,
        0 < oldest <= 0x1_0000_0000_0000 && 10 * (newest - oldest) > oldest ==> trend_of(
            oldest,
            newest,
        ) == Trend::Up,
        0 < oldest <= 0x1_0000_0000_0000 && 10 * (oldest - newest) > oldest ==> trend_of(
            oldest,
            newest,
        ) == Trend::Down,
{
    lemma_whole_exact(oldest as nat, DOUBLE as nat);
    lemma_whole_exact(newest as nat, DOUBLE as nat);
    if oldest > 0 && newest > oldest {
        let by = (newest - oldest) as nat;
        lemma_whole_exact(by, DOUBLE as nat);
        lemma_above_a_tenth(by, oldest as nat);
    }
    if oldest > 0 && newest < oldest {
        let by = (oldest - newest) as nat;
        lemma_whole_exact(by, DOUBLE as nat);
        lemma_above_a_tenth(by, oldest as nat);
    }
}

/// The trend of a process goes from the first of its values to the last, and
/// there is none with fewer than two.
pub proof fn law_window_trend(w: Seq<u64>)
    ensures
        w.len() < 2 ==> window_trend(w) is None,
        w.len() >= 2 ==> window_trend(w) == Some(trend_of(w[0], w[w.len() - 1])),
{
}

/// No two samples are of the same process.
pub open spec fn one_each(procs: Seq<MemSample>) -> bool {
    forall|i: int, j: int|
        #![trigger procs[i], procs[j]]
        0 <= i < procs.len() && 0 <= j < procs.len() && i != j ==> procs[i].pid != procs[j].pid
}

proof fn lemma_sampled(m: Map<u32, Seq<u64>>, procs: Seq<MemSample>, pid: u32)
    requires
        one_each(procs),
    ensures
        forall|k: int|
            0 <= k < procs.len() && (#[trigger] procs[k]).pid == pid ==> sampled(
                m,
                procs,
            ).contains_key(pid) && sampled(m, procs)[pid] == capped(
                window(m, pid),
                procs[k].mem_bytes,
                PROC_TREND_LEN as nat,
            ),
        (forall|k: int| 0 <= k < procs.len() ==> (#[trigger] procs[k]).pid != pid) ==> sampled(
            m,
            procs,
        ).contains_key(pid) == m.contains_key(pid) && (m.contains_key(pid) ==> sampled(
            m,
            procs,
        )[pid] == m[pid]),
    decreases procs.len(),
{
    if procs.len() > 0 {
        let less = procs.drop_last();
        let last = procs.len() - 1;
        assert(one_each(less)) by {
            assert forall|i: int, j: int|
                #![trigger less[i], less[j]]
                0 <= i < less.len() && 0 <= j < less.len() && i != j implies less[i].pid
                != less[j].pid by {
                assert(procs[i].pid != procs[j].pid);
            }
        }
        lemma_sampled(m, less, pid);
        if procs[last].pid == pid {
            assert forall|k: int| 0 <= k < less.len() implies (#[trigger] less[k]).pid != pid by {
                assert(procs[k].pid != procs[last].pid);
            }
        }
        assert forall|k: int| 0 <= k < procs.len() && (#[trigger] procs[k]).pid == pid implies sampled(
            m,
            procs,
        ).contains_key(pid) && sampled(m, procs)[pid] == capped(
            window(m, pid),
            procs[k].mem_bytes,
            PROC_TREND_LEN as nat,
        ) by {
            if k < last {
                assert(less[k] == procs[k]);
                assert(procs[k].pid != procs[last].pid);
            }
        }
        if forall|k: int| 0 <= k < procs.len() ==> (#[trigger] procs[k]).pid != pid {
            assert forall|k: int| 0 <= k < less.len() implies (#[trigger] less[k]).pid != pid by {
                assert(less[k] == procs[k]);
            }
            assert(procs[last].pid != pid);
        }
    }
}

/// Every process in a sample has its value added to its window, and a process
/// that is not in it any more is forgotten.
pub proof fn law_windows(m: Map<u32, Seq<u64>>, procs: Seq<MemSample>)
    requires
        one_each(procs),
    ensures
        ({
            let after = sampled(m, procs).restrict(sample_pids(procs));
            &&& forall|k: int|
                0 <= k < procs.len() ==> after.contains_key((#[trigger] procs[k]).pid)
                    && after[procs[k].pid] == capped(
                    if m.contains_key(procs[k].pid) {
                        m[procs[k].pid]
                    } else {
                        Seq::empty()
                    },
                    procs[k].mem_bytes,
                    10,
                )
            &&& forall|pid: u32|
                #![trigger after.contains_key(pid)]
                after.contains_key(pid) ==> exists|k: int|
                    0 <= k < procs.len() && (#[trigger] procs[k]).pid == pid
        }),
{
    let after = sampled(m, procs).restrict(sample_pids(procs));
    let ids = procs.map_values(|p: MemSample| p.pid);
    assert forall|k: int| 0 <= k < procs.len() implies after.contains_key((#[trigger] procs[k]).pid)
        && after[procs[k].pid] == capped(
        if m.contains_key(procs[k].pid) {
            m[procs[k].pid]
        } else {
            Seq::empty()
        },
        procs[k].mem_bytes,
        10,
    ) by {
        lemma_sampled(m, procs, procs[k].pid);
        assert(ids[k] == procs[k].pid);
        assert(sample_pids(procs).contains(procs[k].pid));
    }
    assert forall|pid: u32|
        #![trigger after.contains_key(pid)]
        after.contains_key(pid) implies exists|k: int|
        0 <= k < procs.len() && (#[trigger] procs[k]).pid == pid by {
        let k = choose|k: int| 0 <= k < ids.len() && ids[k] == pid;
        assert(procs[k].pid == pid);
    }
}

/// The log has the latest line first and keeps five; the oldest makes room.
pub proof fn law_log(log: Seq<String>, line: String)
    ensures
        log.len() < 5 ==> logged(log, line) == seq![line] + log,
        log.len() == 5 ==> logged(log, line) == seq![line] + log.take(4),
        footer_text(Seq::<String>::empty()) is None,
        footer_text(seq![line] + log) == Some("   ⚠ "@ + line@),
{
    if log.len() == 5 {
        assert(log.drop_last() =~= log.take(4));
    }
    assert((seq![line] + log)[0] == line);
}

/// The share of memory in use is what is used of the total, in percent: within
/// 2^-32 percent and one part in 2^20, and nothing of nothing.
pub proof fn law_memory_share(used: u64, total: u64)
    ensures
        total == 0 ==> mem_bits(used, total) == 0,
        0 < total && used <= total ==> {
            let off = mem_bits(used, total) * total - 100 * used * 0x1_0000_0000;
            &&& off * 0x10_0000 <= total * 0x10_0000 + 100 * used * 0x1_0000_0000
            &&& -off * 0x10_0000 <= total * 0x10_0000 + 100 * used * 0x1_0000_0000
        },
{
    if 0 < total && used <= total {
        lemma_percent(used as nat, total as nat, 0x1_0000_0000);
        lemma_at_most_all(used as nat, total as nat);
        let q = times(ratio(used as nat, total as nat, SINGLE as nat), 100, SINGLE as nat);
        let bits = q.0 * 0x1_0000_0000 / q.1;
        assert(bits <= 100 * 0x1_0000_0000) by (nonlinear_arith)
            requires
                bits == q.0 * 0x1_0000_0000 / q.1,
                q.0 <= 100 * q.1,
                q.1 > 0,
        ;
    }
}

/// A cell is filled up with blanks in front to its width, and left as it is
/// where it is as wide.
pub proof fn law_padded(s: Seq<char>, width: nat)
    ensures
        s.len() >= width ==> padded(s, width) == s,
        s.len() < width ==> padded(s, width).len() == width && padded(s, width).skip(
            width - s.len(),
        ) == s,
        forall|i: int| 0 <= i < width - s.len() ==> #[trigger] padded(s, width)[i] == ' ',
{
    if s.len() < width {
        assert(padded(s, width).skip(width - s.len()) =~= s);
    }
}

/// A question being typed is shown above all else, what is being asked above
/// an answer, and an answer where there is one.
pub proof fn law_popups(app: AppState)
    ensures
        app.input_mode ==> (popup_text(app) matches Some(p) && p.0 == Popup::Input && p.2
            == app.input_buffer@ + "_"@),
        !app.input_mode && app.thinking ==> (popup_text(app) matches Some(p) && p.0
            == Popup::Thinking),
        !app.input_mode && !app.thinking ==> match app.answer {
            Some(Ok(text)) => popup_text(app) matches Some(p) && p.0 == Popup::Answer && p.2
                == text@,
            Some(Err(error)) => popup_text(app) matches Some(p) && p.0 == Popup::Failure && p.2
                == error@,
            None => popup_text(app) is None,
        },
{
}

/// The battery is summed up by its charge, by whether it is being charged, and
/// by how long it lasts where that is known.
pub proof fn law_battery_summary(pct: u8, secs: u64, any: Option<u64>, charging: Option<bool>)
    ensures
        battery_text(None, charging, any) == "battery n/a"@,
        battery_text(Some(pct), None, any) == "battery "@ + decimal(pct as nat) + "%"@,
        battery_text(Some(pct), Some(true), any) == "battery "@ + decimal(pct as nat)
            + "% (charging)"@,
        battery_text(Some(pct), Some(false), None) == "battery "@ + decimal(pct as nat)
            + "% (draining)"@,
        battery_text(Some(pct), Some(false), Some(secs)) == "battery "@ + decimal(pct as nat)
            + "% (draining, ~"@ + eta_text(secs as nat * 1000000000) + " left)"@,
{
}

/// The header gives the three load averages, the memory in use and in all, the
/// swap in use and the share of the processors, each under its name.
pub proof fn law_header(h: Header, battery: Seq<char>)
    ensures
        ({
            let t = header_text(h, battery);
            let one = tenths(h.load_avg.one.bits as nat, 0x1_0000_0000);
            let five = tenths(h.load_avg.five.bits as nat, 0x1_0000_0000);
            let fifteen = tenths(h.load_avg.fifteen.bits as nat, 0x1_0000_0000);
            &&& mentions(t, "load "@ + one + " "@ + five + " "@ + fifteen)
            &&& mentions(t, "mem "@ + gigabytes(h.mem_used) + "/"@ + gigabytes(h.mem_total) + " GB"@)
            &&& mentions(t, "swap "@ + gigabytes(h.swap_used) + " GB"@)
            &&& mentions(t, "cpu "@ + percent(h.cpu_pct.bits) + "%"@)
            &&& mentions(t, battery)
        }),
{
    let one = tenths(h.load_avg.one.bits as nat, 0x1_0000_0000);
    let five = tenths(h.load_avg.five.bits as nat, 0x1_0000_0000);
    let fifteen = tenths(h.load_avg.fifteen.bits as nat, 0x1_0000_0000);
    let used = gigabytes(h.mem_used);
    let total = gigabytes(h.mem_total);
    let swap = gigabytes(h.swap_used);
    let cpu = percent(h.cpu_pct.bits);
    let loads = "load "@ + one + " "@ + five + " "@ + fifteen;
    let mem = "mem "@ + used + "/"@ + total + " GB"@;
    let p1 = "  load "@ + one + " "@ + five + " "@ + fifteen;
    let p2 = p1 + "   mem "@ + used + "/"@ + total;
    let p3 = p2 + " GB   swap "@;
    let p4 = p3 + swap;
    let p5 = p4 + " GB   cpu "@;
    let p6 = p5 + cpu;
    let p7 = p6 + "%   "@;
    lemma_load_words(one, five, fifteen);
    lemma_mem_words(p1, used, total);
    lemma_swap_words(p2, swap);
    lemma_cpu_words(p4, cpu);
    lemma_mentions_append(p1, "   mem "@, loads);
    lemma_mentions_append(p1 + "   mem "@, used, loads);
    lemma_mentions_append(p1 + "   mem "@ + used, "/"@, loads);
    lemma_mentions_append(p1 + "   mem "@ + used + "/"@, total, loads);
    lemma_mentions_append(p2, " GB   swap "@, loads);
    lemma_mentions_append(p3, swap, loads);
    lemma_mentions_append(p4, " GB   cpu "@, loads);
    lemma_mentions_append(p5, cpu, loads);
    lemma_mentions_append(p6, "%   "@, loads);
    lemma_mentions_append(p7, battery, loads);
    lemma_mentions_append(p3, swap, mem);
    lemma_mentions_append(p4, " GB   cpu "@, mem);
    lemma_mentions_append(p5, cpu, mem);
    lemma_mentions_append(p6, "%   "@, mem);
    lemma_mentions_append(p7, battery, mem);
    lemma_mentions_append(p5, cpu, "swap "@ + swap + " GB"@);
    lemma_mentions_append(p6, "%   "@, "swap "@ + swap + " GB"@);
    lemma_mentions_append(p7, battery, "swap "@ + swap + " GB"@);
    lemma_mentions_append(p7, battery, "cpu "@ + cpu + "%"@);
    assert(p7 + battery =~= p7 + battery + Seq::<char>::empty());
    assert(header_text(h, battery) == p7 + battery);
}

proof fn lemma_mentions_append(a: Seq<char>, b: Seq<char>, part: Seq<char>)
    requires
        mentions(a, part),
    ensures
        mentions(a + b, part),
{
    lemma_mentions_within(Seq::<char>::empty(), a, b, part);
    assert(Seq::<char>::empty() + a + b =~= a + b);
}

proof fn lemma_load_words(one: Seq<char>, five: Seq<char>, fifteen: Seq<char>)
    ensures
        mentions(
            "  load "@ + one + " "@ + five + " "@ + fifteen,
            "load "@ + one + " "@ + five + " "@ + fifteen,
        ),
{
    lemma_header_words();
    assert("  load "@ + one + " "@ + five + " "@ + fifteen =~= "  "@ + ("load "@ + one + " "@ + five
        + " "@ + fifteen) + Seq::<char>::empty());
}

proof fn lemma_mem_words(p: Seq<char>, used: Seq<char>, total: Seq<char>)
    ensures
        mentions(
            p + "   mem "@ + used + "/"@ + total + " GB   swap "@,
            "mem "@ + used + "/"@ + total + " GB"@,
        ),
{
    lemma_header_words();
    assert(p + "   mem "@ + used + "/"@ + total + " GB   swap "@ =~= (p + "   "@) + ("mem "@ + used
        + "/"@ + total + " GB"@) + ("   "@ + "swap "@));
}

proof fn lemma_swap_words(p: Seq<char>, swap: Seq<char>)
    ensures
        mentions(p + " GB   swap "@ + swap + " GB   cpu "@, "swap "@ + swap + " GB"@),
{
    lemma_header_words();
    assert(p + " GB   swap "@ + swap + " GB   cpu "@ =~= (p + " GB"@ + "   "@) + ("swap "@ + swap
        + " GB"@) + ("   "@ + "cpu "@));
}

proof fn lemma_cpu_words(p: Seq<char>, cpu: Seq<char>)
    ensures
        mentions(p + " GB   cpu "@ + cpu + "%   "@, "cpu "@ + cpu + "%"@),
{
    lemma_header_words();
    assert(p + " GB   cpu "@ + cpu + "%   "@ =~= (p + " GB"@ + "   "@) + ("cpu "@ + cpu + "%"@)
        + "   "@);
}

proof fn lemma_header_words()
    ensures
        "  load "@ == "  "@ + "load "@,
        "   mem "@ == "   "@ + "mem "@,
        " GB   swap "@ == " GB"@ + "   "@ + "swap "@,
        " GB   cpu "@ == " GB"@ + "   "@ + "cpu "@,
        "%   "@ == "%"@ + "   "@,
{
    reveal_strlit("  load ");
    reveal_strlit("  ");
    reveal_strlit("load ");
    reveal_strlit("   mem ");
    reveal_strlit("   ");
    reveal_strlit("mem ");
    reveal_strlit(" GB   swap ");
    reveal_strlit(" GB");
    reveal_strlit("swap ");
    reveal_strlit(" GB   cpu ");
    reveal_strlit("cpu ");
    reveal_strlit("%   ");
    reveal_strlit("%");
}

/// The question about a process gives its name, its pid, its share of a
/// processor and its memory.
pub proof fn law_why(name: Seq<char>, pid: u32, cpu_pct: Fixed, mem_bytes: u64)
    ensures
        why_text(name, pid, cpu_pct, mem_bytes) == "Why is "@ + name + " (pid "@ + decimal(
            pid as nat,
        ) + ") using "@ + percent(cpu_pct.bits) + "% CPU and "@ + megabytes(mem_bytes)
            + " MB memory right now?"@,
{
}

/// A row of the table gives the pid, the name, the share of a processor, the
/// memory and where that is going, each of the process it is about.
pub proof fn law_row(row: TableRow, p: ProcInfo, trend: Option<Trend>)
    requires
        is_row(row, p, trend),
    ensures
        row.pid@ == decimal(p.pid as nat),
        row.name@ == p.name@,
        row.cpu@ == padded(tenths(p.cpu_pct.bits as nat, 0x1_0000_0000), 6) + "%"@,
        trend is None ==> row.mem@ == padded(megabyte_tenths(p.mem_bytes), 8) + " MB "@ + " "@,
        trend == Some(Trend::Up) ==> row.mem@ == padded(megabyte_tenths(p.mem_bytes), 8) + " MB "@
            + "↑"@,
        trend == Some(Trend::Down) ==> row.mem@ == padded(megabyte_tenths(p.mem_bytes), 8) + " MB "@
            + "↓"@,
        trend == Some(Trend::Stable) ==> row.mem@ == padded(megabyte_tenths(p.mem_bytes), 8)
            + " MB "@ + "→"@,
{
}

/// A curve is titled with its name and its latest value, or none where it has
/// no value yet.
pub proof fn law_curve_title(name: Seq<char>, values: Seq<u64>, v: u64)
    ensures
        sparkline_text(name, Seq::<u64>::empty()) == " "@ + name + " "@ + decimal(0) + "% "@,
        sparkline_text(name, values.push(v)) == " "@ + name + " "@ + decimal(v as nat) + "% "@,
{
}

} // verus!
