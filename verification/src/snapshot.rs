//! One point-in-time reading of the machine: processes, memory, disks,
//! battery, network connections.
//!
//! Nothing here asks the system for anything. The text that `pmset` and
//! `netstat` print, and the raw list of processes and disks, come in as
//! arguments.
use crate::alerts::optional_str;
use crate::float::{lemma_at_most_all, multiply, ratio, ratio_of, times, whole, whole_of, SINGLE};
use crate::number::{number_at, parse_number, Fixed, ONE};
use crate::order::{descending, descending_order, picks, precedes, ranked};
use crate::snapshot_laws::{is_address, law_loopback, starts_with_127};
use crate::text::{
    after_last, before_last, chars_of, contains, contains_text, cut, digit, find, find_at, has_prefix,
    is_at, is_digit, join, last_position_of, line_bounds, lines, pieces, position, position_of, text_of, trim,
    word_bounds, words,
};
use vstd::prelude::*;
use vstd::string::StringExecFns;

verus! {

/// One process.
#[derive(Debug)]
pub struct ProcInfo {
    pub pid: u32,
    pub ppid: Option<u32>,
    pub name: String,
    /// Share of one processor, in percent.
    pub cpu_pct: Fixed,
    pub mem_bytes: u64,
    pub run_time_secs: u64,
    pub cmd: String,
}

impl Clone for ProcInfo {
    fn clone(&self) -> (r: Self)
        ensures
            r == *self,
    {
        ProcInfo {
            pid: self.pid,
            ppid: self.ppid,
            name: self.name.clone(),
            cpu_pct: self.cpu_pct,
            mem_bytes: self.mem_bytes,
            run_time_secs: self.run_time_secs,
            cmd: self.cmd.clone(),
        }
    }
}

/// A member of a process group, named so that there is something to check
/// before deciding about the group.
#[derive(Clone, Copy, Debug, PartialEq, Eq, Structural)]
pub struct ProcSample {
    pub pid: u32,
    pub ppid: Option<u32>,
    pub run_time_secs: u64,
}

/// Every process of one name, taken together.
#[derive(Debug)]
pub struct ProcGroup {
    pub name: String,
    pub count: u32,
    pub total_cpu_pct: Fixed,
    pub total_mem_bytes: u64,
    /// The member that uses the most memory: a pointer for further
    /// investigation, not a claim that it alone explains the group's total.
    pub top_pid: u32,
    /// The longest-running members, the oldest first.
    pub oldest: Vec<ProcSample>,
}

impl Clone for ProcGroup {
    fn clone(&self) -> (r: Self)
        ensures
            r.name == self.name,
            r.count == self.count,
            r.total_cpu_pct == self.total_cpu_pct,
            r.total_mem_bytes == self.total_mem_bytes,
            r.top_pid == self.top_pid,
            r.oldest@ == self.oldest@,
    {
        let mut oldest: Vec<ProcSample> = Vec::new();
        let mut i: usize = 0;
        while i < self.oldest.len()
            invariant
                i <= self.oldest@.len(),
                oldest@ == self.oldest@.take(i as int),
            decreases self.oldest@.len() - i,
        {
            oldest.push(self.oldest[i]);
            i = i + 1;
        }
        ProcGroup {
            name: self.name.clone(),
            count: self.count,
            total_cpu_pct: self.total_cpu_pct,
            total_mem_bytes: self.total_mem_bytes,
            top_pid: self.top_pid,
            oldest,
        }
    }
}

#[derive(Debug)]
pub struct DiskInfo {
    pub mount_point: String,
    pub total_bytes: u64,
    pub available_bytes: u64,
    /// How much of it is in use, in percent.
    pub used_pct: Fixed,
}

impl Clone for DiskInfo {
    fn clone(&self) -> (r: Self)
        ensures
            r == *self,
    {
        DiskInfo {
            mount_point: self.mount_point.clone(),
            total_bytes: self.total_bytes,
            available_bytes: self.available_bytes,
            used_pct: self.used_pct,
        }
    }
}

#[derive(Clone, Copy, Debug, PartialEq, Eq, Structural)]
pub struct LoadAvg {
    pub one: Fixed,
    pub five: Fixed,
    pub fifteen: Fixed,
}

#[derive(Clone, Copy, Debug, PartialEq, Eq, Structural)]
pub struct MemoryInfo {
    pub total_bytes: u64,
    pub used_bytes: u64,
    pub free_bytes: u64,
    pub swap_total_bytes: u64,
    pub swap_used_bytes: u64,
}

#[derive(Debug)]
pub struct BatteryInfo {
    pub percentage: Option<u8>,
    pub charging: Option<bool>,
    /// The system's own "H:MM remaining" estimate, in seconds. `None` where
    /// it shows "0:00" or "(no estimate)": not discharging, or still
    /// calibrating right after a state change.
    pub remaining_secs: Option<u64>,
    pub raw: String,
}

#[derive(Clone, Copy, Debug, PartialEq, Eq, Structural)]
pub struct ConnectionCounts {
    pub established: u32,
    pub listen: u32,
    pub time_wait: u32,
    pub close_wait: u32,
    pub other: u32,
    pub total: u32,
    /// Established connections whose local port is one that this machine
    /// listens on and whose remote peer is not loopback: someone on the
    /// network connected in to a service that runs here. A heuristic, not a
    /// record of who dialed whom.
    pub incoming: u32,
}

impl Default for ConnectionCounts {
    fn default() -> (r: Self)
        ensures
            r == (ConnectionCounts {
                established: 0,
                listen: 0,
                time_wait: 0,
                close_wait: 0,
                other: 0,
                total: 0,
                incoming: 0,
            }),
    {
        ConnectionCounts {
            established: 0,
            listen: 0,
            time_wait: 0,
            close_wait: 0,
            other: 0,
            total: 0,
            incoming: 0,
        }
    }
}

pub struct Snapshot {
    pub ts_unix: u64,
    pub load_avg: LoadAvg,
    pub memory: MemoryInfo,
    pub disks: Vec<DiskInfo>,
    pub battery: Option<BatteryInfo>,
    pub connections: Option<ConnectionCounts>,
    pub top_cpu: Vec<ProcInfo>,
    pub top_mem: Vec<ProcInfo>,
    /// Processes aggregated by name, the largest combined memory first.
    /// Helpers of one application can each sit well below the ranking of
    /// single processes while their sum is the real memory story.
    pub top_mem_groups: Vec<ProcGroup>,
}

// --------------------------------------------------------------- battery

/// What stands before the first `p` in `s`; all of `s` if it holds none.
pub open spec fn before(s: Seq<char>, p: Seq<char>) -> Seq<char> {
    match find(s, p) {
        Some(i) => s.take(i),
        None => s,
    }
}

/// Hours and minutes that `token` spells as `H:MM`.
pub open spec fn clock(token: Seq<char>) -> Option<(nat, nat)> {
    let colon = position(token, ':');
    if colon < 0 || colon >= token.len() {
        None
    } else {
        match (
            parse_number(token.take(colon), u64::MAX as nat),
            parse_number(token.skip(colon + 1), u64::MAX as nat),
        ) {
            (Some(h), Some(m)) => Some((h, m)),
            _ => None,
        }
    }
}

/// The seconds that `line` says remain: the last word before `remaining`,
/// read as hours and minutes. "0:00" is the way to say that there is no
/// estimate.
pub open spec fn remaining(line: Seq<char>) -> Option<nat> {
    let ws = words(before(line, "remaining"@));
    if ws.len() == 0 {
        None
    } else {
        match clock(ws.last()) {
            Some((h, m)) => if h == 0 && m == 0 {
                None
            } else {
                Some(h * 3600 + m * 60)
            },
            None => None,
        }
    }
}

/// The estimate in `line` is one that a `u64` holds.
pub open spec fn remaining_fits(line: Seq<char>) -> bool {
    remaining(line) matches Some(secs) ==> secs <= u64::MAX
}

/// Whether the estimate in `line`, if it has one, is one that a `u64` holds.
pub fn estimate_fits(line: &str) -> (r: bool)
    ensures
        r == remaining_fits(line@),
{
    match clock_at(line) {
        Some((h, m)) => (h as u128) * 3600 + (m as u128) * 60 <= u64::MAX as u128,
        None => true,
    }
}

/// The hours and minutes of the estimate in `line`.
fn clock_at(line: &str) -> (r: Option<(u64, u64)>)
    ensures
        match r {
            Some((h, m)) => if h == 0 && m == 0 {
                remaining(line@) is None
            } else {
                remaining(line@) == Some((h * 3600 + m * 60) as nat)
            },
            None => remaining(line@) is None,
        },
{
    let cs = chars_of(line);
    let mark = chars_of("remaining");
    let ghost text = line@;
    let end: usize = match find_at(cs.as_slice(), mark.as_slice(), 0) {
        Some(i) => i,
        None => cs.len(),
    };
    assert(cs@.subrange(0, end as int) == before(text, "remaining"@));
    let ws = word_bounds(cs.as_slice(), 0, end);
    let ghost parts = words(before(text, "remaining"@));
    assert(pieces(cs@, ws@) == parts);
    assert(parts.len() == ws@.len());
    if ws.len() == 0 {
        return None;
    }
    let (a, b) = ws[ws.len() - 1];
    let ghost token = parts.last();
    assert(pieces(cs@, ws@)[ws@.len() - 1] == cs@.subrange(a as int, b as int));
    assert(token == cs@.subrange(a as int, b as int));
    let colon = position_of(cs.as_slice(), a, b, ':');
    if colon == b {
        return None;
    }
    assert(token.take(colon - a) == cs@.subrange(a as int, colon as int));
    assert(token.skip(colon - a + 1) == cs@.subrange(colon + 1, b as int));
    match (
        number_at(cs.as_slice(), a, colon, u64::MAX),
        number_at(cs.as_slice(), colon + 1, b, u64::MAX),
    ) {
        (Some(h), Some(m)) => Some((h, m)),
        _ => None,
    }
}

/// Reads the "H:MM remaining" part of a line that `pmset` prints. `None` for
/// "0:00" and for "(no estimate)".
pub fn parse_remaining_secs(line: &str) -> (r: Option<u64>)
    requires
        remaining_fits(line@),
    ensures
        match r {
            Some(secs) => remaining(line@) == Some(secs as nat),
            None => remaining(line@) is None,
        },
{
    match clock_at(line) {
        Some((h, m)) => if h == 0 && m == 0 {
            None
        } else {
            Some(h * 3600 + m * 60)
        },
        None => None,
    }
}

/// The first of `ws` with a percent sign in it.
pub open spec fn percent_word(ws: Seq<Seq<char>>) -> Option<Seq<char>>
    decreases ws.len(),
{
    if ws.len() == 0 {
        None
    } else if ws[0].contains('%') {
        Some(ws[0])
    } else {
        percent_word(ws.skip(1))
    }
}

/// `s` without what is not a digit at its start.
pub open spec fn from_first_digit(s: Seq<char>) -> Seq<char>
    decreases s.len(),
{
    if s.len() > 0 && !is_digit(s[0]) {
        from_first_digit(s.skip(1))
    } else {
        s
    }
}

/// `s` without what is not a digit at its end.
pub open spec fn to_last_digit(s: Seq<char>) -> Seq<char>
    decreases s.len(),
{
    if s.len() > 0 && !is_digit(s.last()) {
        to_last_digit(s.drop_last())
    } else {
        s
    }
}

/// The charge in percent that `line` gives.
pub open spec fn charge(line: Seq<char>) -> Option<nat> {
    match percent_word(words(line)) {
        Some(w) => parse_number(to_last_digit(from_first_digit(w)), u8::MAX as nat),
        None => None,
    }
}

/// Whether `line` says that the battery is being charged.
pub open spec fn charging(line: Seq<char>) -> Option<bool> {
    if contains(line, "discharging"@) {
        Some(false)
    } else if contains(line, "charging"@) || contains(line, "AC Power"@) {
        Some(true)
    } else {
        None
    }
}

fn holds_percent(cs: &[char], from: usize, to: usize) -> (r: bool)
    requires
        from <= to <= cs@.len(),
    ensures
        r == cs@.subrange(from as int, to as int).contains('%'),
{
    let i = position_of(cs, from, to, '%');
    let ghost part = cs@.subrange(from as int, to as int);
    proof {
        if i < to {
            assert(part[i - from] == '%');
        } else {
            assert forall|j: int| 0 <= j < part.len() implies part[j] != '%' by {
                assert(cs@[from + j] != '%');
            }
        }
    }
    i < to
}

fn parse_charge(line: &str) -> (r: Option<u8>)
    ensures
        match r {
            Some(n) => charge(line@) == Some(n as nat),
            None => charge(line@) is None,
        },
{
    let cs = chars_of(line);
    assert(cs@.subrange(0, cs@.len() as int) == cs@);
    let ws = word_bounds(cs.as_slice(), 0, cs.len());
    let ghost parts = words(line@);
    assert(pieces(cs@, ws@) == parts);
    let mut i: usize = 0;
    assert(parts.skip(0) == parts);
    while i < ws.len()
        invariant
            i <= ws@.len(),
            cut(ws@, cs@.len()),
            cs@ == line@,
            parts == words(line@),
            pieces(cs@, ws@) == parts,
            percent_word(parts) == percent_word(parts.skip(i as int)),
        decreases ws@.len() - i,
    {
        let (from, to) = ws[i];
        assert(pieces(cs@, ws@)[i as int] == cs@.subrange(from as int, to as int));
        assert(parts.skip(i as int)[0] == cs@.subrange(from as int, to as int));
        if holds_percent(cs.as_slice(), from, to) {
            let ghost w = cs@.subrange(from as int, to as int);
            let mut a: usize = from;
            while a < to && !digit(cs[a])
                invariant
                    from <= a <= to <= cs@.len(),
                    w == cs@.subrange(from as int, to as int),
                    from_first_digit(w) == from_first_digit(cs@.subrange(a as int, to as int)),
                decreases to - a,
            {
                assert(cs@.subrange(a as int, to as int).skip(1) == cs@.subrange(
                    a + 1,
                    to as int,
                ));
                a = a + 1;
            }
            let ghost v = cs@.subrange(a as int, to as int);
            let mut b: usize = to;
            while a < b && !digit(cs[b - 1])
                invariant
                    from <= a <= b <= to <= cs@.len(),
                    v == cs@.subrange(a as int, to as int),
                    to_last_digit(v) == to_last_digit(cs@.subrange(a as int, b as int)),
                decreases b - a,
            {
                assert(cs@.subrange(a as int, b as int).drop_last() == cs@.subrange(
                    a as int,
                    b - 1,
                ));
                b = b - 1;
            }
            return match number_at(cs.as_slice(), a, b, u8::MAX as u64) {
                Some(n) => Some(n as u8),
                None => None,
            };
        }
        assert(parts.skip(i as int).skip(1) == parts.skip(i + 1));
        i = i + 1;
    }
    None
}

/// Reads the line that `pmset -g batt` prints about the battery.
pub fn parse_battery_line(line: &str) -> (r: Option<BatteryInfo>)
    requires
        remaining_fits(line@),
    ensures
        r matches Some(b) && {
            &&& match b.percentage {
                Some(n) => charge(line@) == Some(n as nat),
                None => charge(line@) is None,
            }
            &&& b.charging == charging(line@)
            &&& match b.remaining_secs {
                Some(secs) => remaining(line@) == Some(secs as nat),
                None => remaining(line@) is None,
            }
            &&& b.raw@ == trim(line@)
        },
{
    let percentage = parse_charge(line);
    let charging = if contains_text(line, "discharging") {
        Some(false)
    } else if contains_text(line, "charging") || contains_text(line, "AC Power") {
        Some(true)
    } else {
        None
    };
    let remaining_secs = parse_remaining_secs(line);
    Some(BatteryInfo { percentage, charging, remaining_secs, raw: crate::text::trimmed(line) })
}

/// Reads what `pmset -g batt` prints: the battery is on the second line.
pub fn read_battery(output: &str) -> (r: Option<BatteryInfo>)
    requires
        lines(output@).len() >= 2 ==> remaining_fits(lines(output@)[1]),
    ensures
        r is Some <==> lines(output@).len() >= 2,
        r matches Some(b) ==> {
            let line = lines(output@)[1];
            &&& match b.percentage {
                Some(n) => charge(line) == Some(n as nat),
                None => charge(line) is None,
            }
            &&& b.charging == charging(line)
            &&& match b.remaining_secs {
                Some(secs) => remaining(line) == Some(secs as nat),
                None => remaining(line) is None,
            }
            &&& b.raw@ == trim(line)
        },
{
    match battery_line(output) {
        Some(line) => parse_battery_line(line.as_str()),
        None => None,
    }
}

/// The line about the battery in what `pmset -g batt` prints.
pub fn battery_line(output: &str) -> (r: Option<String>)
    ensures
        match r {
            Some(line) => lines(output@).len() >= 2 && line@ == lines(output@)[1],
            None => lines(output@).len() < 2,
        },
{
    let cs = chars_of(output);
    let ls = line_bounds(cs.as_slice());
    assert(pieces(cs@, ls@).len() == ls@.len());
    if ls.len() < 2 {
        return None;
    }
    assert(pieces(cs@, ls@)[1] == cs@.subrange(ls@[1].0 as int, ls@[1].1 as int));
    let (a, b) = ls[1];
    Some(text_of(cs.as_slice(), a, b))
}

// ----------------------------------------------------------- connections

/// The columns of a line about a TCP connection: protocol, two queue
/// lengths, local address, foreign address, state.
pub open spec fn is_tcp(cols: Seq<Seq<char>>) -> bool {
    cols.len() >= 6 && "tcp"@.is_prefix_of(cols[0])
}

/// The columns of every line about a TCP connection in what `netstat` prints.
pub open spec fn tcp_rows(output: Seq<char>) -> Seq<Seq<Seq<char>>> {
    lines(output).map_values(|l: Seq<char>| words(l)).filter(|cols: Seq<Seq<char>>| is_tcp(cols))
}

/// The port in an address written `host.port`: what stands behind the last
/// dot, if that is a number.
pub open spec fn port(addr: Seq<char>) -> Option<Seq<char>> {
    let p = after_last(addr, '.');
    if p.len() > 0 && crate::number::all_digits(p) {
        Some(p)
    } else {
        None
    }
}

/// The host of an address written `host.port` is this machine itself.
pub open spec fn loopback(addr: Seq<char>) -> bool {
    let host = before_last(addr, '.');
    host == "127.0.0.1"@ || host == "::1"@ || "127."@.is_prefix_of(host)
}

/// One of `rows` listens on `p`.
pub open spec fn listens_on(rows: Seq<Seq<Seq<char>>>, p: Seq<char>) -> bool {
    exists|i: int|
        0 <= i < rows.len() && (#[trigger] rows[i])[5] == "LISTEN"@ && port(rows[i][3]) == Some(p)
}

/// The connection was opened to this machine from outside.
pub open spec fn is_incoming(rows: Seq<Seq<Seq<char>>>, row: Seq<Seq<char>>) -> bool {
    &&& row[5] == "ESTABLISHED"@
    &&& !loopback(row[4])
    &&& port(row[3]) is Some
    &&& listens_on(rows, port(row[3])->0)
}

/// How many of `rows` are in `state`.
pub open spec fn in_state(rows: Seq<Seq<Seq<char>>>, state: Seq<char>) -> nat {
    rows.filter(|row: Seq<Seq<char>>| row[5] == state).len()
}

/// The state is none of those counted by name.
pub open spec fn is_other(row: Seq<Seq<char>>) -> bool {
    row[5] != "ESTABLISHED"@ && row[5] != "LISTEN"@ && row[5] != "TIME_WAIT"@ && row[5]
        != "CLOSE_WAIT"@
}

/// How many of `rows` are in a state that is not counted by name.
pub open spec fn in_other_state(rows: Seq<Seq<Seq<char>>>) -> nat {
    rows.filter(|row: Seq<Seq<char>>| is_other(row)).len()
}

/// How many of `rows` came in from outside, where `all` are the rows there are.
pub open spec fn incoming_among(all: Seq<Seq<Seq<char>>>, rows: Seq<Seq<Seq<char>>>) -> nat {
    rows.filter(|row: Seq<Seq<char>>| is_incoming(all, row)).len()
}

/// `counts` is what `rows` come to, where `all` are the rows there are.
pub open spec fn counted(
    counts: ConnectionCounts,
    all: Seq<Seq<Seq<char>>>,
    rows: Seq<Seq<Seq<char>>>,
) -> bool {
    &&& counts.total == rows.len()
    &&& counts.established == in_state(rows, "ESTABLISHED"@)
    &&& counts.listen == in_state(rows, "LISTEN"@)
    &&& counts.time_wait == in_state(rows, "TIME_WAIT"@)
    &&& counts.close_wait == in_state(rows, "CLOSE_WAIT"@)
    &&& counts.other == in_other_state(rows)
    &&& counts.incoming == incoming_among(all, rows)
}

/// The bounds of the port in the part of `cs`.
fn port_bounds(cs: &[char], from: usize, to: usize) -> (r: Option<(usize, usize)>)
    requires
        from <= to <= cs@.len(),
    ensures
        match r {
            Some((a, b)) => from <= a <= b <= to && port(cs@.subrange(from as int, to as int))
                == Some(cs@.subrange(a as int, b as int)),
            None => port(cs@.subrange(from as int, to as int)) is None,
        },
{
    let ghost addr = cs@.subrange(from as int, to as int);
    let start = last_position_of(cs, from, to, '.');
    let ghost p = after_last(addr, '.');
    assert(p == cs@.subrange(start as int, to as int));
    if start == to {
        return None;
    }
    let mut i: usize = start;
    while i < to
        invariant
            start <= i <= to <= cs@.len(),
            addr == cs@.subrange(from as int, to as int),
            p == after_last(addr, '.'),
            p == cs@.subrange(start as int, to as int),
            forall|j: int| 0 <= j < i - start ==> is_digit(#[trigger] p[j]),
        decreases to - i,
    {
        if !digit(cs[i]) {
            assert(!is_digit(p[i - start]));
            return None;
        }
        i = i + 1;
    }
    Some((start, to))
}

/// The port in an address as `netstat` prints it, `host.port`: always the
/// part behind the last dot.
pub fn netstat_port(addr: &str) -> (r: Option<String>)
    ensures
        match r {
            Some(p) => port(addr@) == Some(p@),
            None => port(addr@) is None,
        },
{
    let cs = chars_of(addr);
    assert(cs@.subrange(0, cs@.len() as int) == cs@);
    match port_bounds(cs.as_slice(), 0, cs.len()) {
        Some((a, b)) => Some(text_of(cs.as_slice(), a, b)),
        None => None,
    }
}

fn is_loopback_at(cs: &[char], from: usize, to: usize) -> (r: bool)
    requires
        from <= to <= cs@.len(),
    ensures
        r == loopback(cs@.subrange(from as int, to as int)),
{
    let ghost addr = cs@.subrange(from as int, to as int);
    let dot = last_position_of(cs, from, to, '.');
    let end: usize = if dot > from {
        dot - 1
    } else {
        to
    };
    assert(before_last(addr, '.') == cs@.subrange(from as int, end as int));
    let v4 = chars_of("127.0.0.1");
    let v6 = chars_of("::1");
    let net = chars_of("127.");
    is_at(cs, from, end, v4.as_slice()) || is_at(cs, from, end, v6.as_slice()) || has_prefix(
        cs,
        from,
        end,
        net.as_slice(),
    )
}

/// Whether the host of an address as `netstat` prints it is this machine.
pub fn is_loopback(addr: &str) -> (r: bool)
    ensures
        r == loopback(addr@),
        forall|host: Seq<char>, p: Seq<char>| #[trigger]
            is_address(addr@, host, p) ==> r == (host == seq![':', ':', '1'] || starts_with_127(
                host,
            )),
{
    proof {
        assert forall|host: Seq<char>, p: Seq<char>| #[trigger]
            is_address(addr@, host, p) implies loopback(addr@) == (host == seq![':', ':', '1']
            || starts_with_127(host)) by {
            law_loopback(addr@, host, p);
        }
    }
    let cs = chars_of(addr);
    assert(cs@.subrange(0, cs@.len() as int) == cs@);
    is_loopback_at(cs.as_slice(), 0, cs.len())
}

/// Where the columns that matter stand in a line about a connection.
struct Row {
    local: (usize, usize),
    foreign: (usize, usize),
    state: (usize, usize),
}

spec fn part(s: Seq<char>, b: (usize, usize)) -> Seq<char> {
    s.subrange(b.0 as int, b.1 as int)
}

/// `row` says where the columns `cols` stand in `s`.
spec fn row_of(s: Seq<char>, row: Row, cols: Seq<Seq<char>>) -> bool {
    &&& row.local.0 <= row.local.1 <= s.len() && part(s, row.local) == cols[3]
    &&& row.foreign.0 <= row.foreign.1 <= s.len() && part(s, row.foreign) == cols[4]
    &&& row.state.0 <= row.state.1 <= s.len() && part(s, row.state) == cols[5]
}

spec fn rows_of(s: Seq<char>, rows: Seq<Row>, cols: Seq<Seq<Seq<char>>>) -> bool {
    &&& rows.len() == cols.len()
    &&& forall|i: int| 0 <= i < rows.len() ==> row_of(s, #[trigger] rows[i], cols[i])
}

/// Finds the lines about TCP connections.
fn find_rows(cs: &[char]) -> (r: Vec<Row>)
    ensures
        rows_of(cs@, r@, tcp_rows(cs@)),
{
    let ghost columns = lines(cs@).map_values(|l: Seq<char>| words(l));
    let ghost tcp = |cols: Seq<Seq<char>>| is_tcp(cols);
    let ls = line_bounds(cs);
    let mark = chars_of("tcp");
    let mut r: Vec<Row> = Vec::new();
    let mut i: usize = 0;
    proof {
        assert(pieces(cs@, ls@).len() == ls@.len());
        reveal(Seq::filter);
        assert(columns.take(0).filter(tcp) == Seq::<Seq<Seq<char>>>::empty());
    }
    while i < ls.len()
        invariant
            i <= ls@.len(),
            ls@.len() == columns.len(),
            mark@ == "tcp"@,
            cut(ls@, cs@.len()),
            pieces(cs@, ls@) == lines(cs@),
            columns == lines(cs@).map_values(|l: Seq<char>| words(l)),
            tcp == |cols: Seq<Seq<char>>| is_tcp(cols),
            rows_of(cs@, r@, columns.take(i as int).filter(tcp)),
        decreases ls@.len() - i,
    {
        let (from, to) = ls[i];
        assert(pieces(cs@, ls@)[i as int] == cs@.subrange(from as int, to as int));
        let ghost cols = columns[i as int];
        assert(cols == words(cs@.subrange(from as int, to as int)));
        let ws = word_bounds(cs, from, to);
        proof {
            columns.take(i as int).lemma_filter_push(cols, tcp);
            assert(columns.take(i + 1) == columns.take(i as int).push(cols));
            assert(pieces(cs@, ws@).len() == ws@.len());
            assert forall|k: int| 0 <= k < ws@.len() implies cols[k] == part(
                cs@,
                #[trigger] ws@[k],
            ) by {
                assert(pieces(cs@, ws@)[k] == part(cs@, ws@[k]));
            }
        }
        if ws.len() >= 6 {
            let (a, b) = ws[0];
            assert(cols[0] == part(cs@, ws@[0]));
            if has_prefix(cs, a, b, mark.as_slice()) {
                assert(cols[3] == part(cs@, ws@[3]));
                assert(cols[4] == part(cs@, ws@[4]));
                assert(cols[5] == part(cs@, ws@[5]));
                r.push(Row { local: ws[3], foreign: ws[4], state: ws[5] });
            }
        }
        i = i + 1;
    }
    assert(columns.take(i as int) == columns);
    r
}

/// Whether one of the rows listens on the port that the part of `cs` spells.
fn is_listened_on(
    cs: &[char],
    rows: &Vec<Row>,
    a: usize,
    b: usize,
    Ghost(cols): Ghost<Seq<Seq<Seq<char>>>>,
) -> (r: bool)
    requires
        a <= b <= cs@.len(),
        rows_of(cs@, rows@, cols),
    ensures
        r == listens_on(cols, cs@.subrange(a as int, b as int)),
{
    let listen = chars_of("LISTEN");
    let own = text_of(cs, a, b);
    let own_chars = chars_of(own.as_str());
    let ghost p = cs@.subrange(a as int, b as int);
    let mut i: usize = 0;
    while i < rows.len()
        invariant
            i <= rows@.len(),
            rows_of(cs@, rows@, cols),
            listen@ == "LISTEN"@,
            own_chars@ == p,
            p == cs@.subrange(a as int, b as int),
            forall|j: int|
                0 <= j < i ==> !((#[trigger] cols[j])[5] == "LISTEN"@ && port(cols[j][3]) == Some(
                    p,
                )),
        decreases rows@.len() - i,
    {
        let row = &rows[i];
        assert(row_of(cs@, rows@[i as int], cols[i as int]));
        if is_at(cs, row.state.0, row.state.1, listen.as_slice()) {
            if let Some((x, y)) = port_bounds(cs, row.local.0, row.local.1) {
                if is_at(cs, x, y, own_chars.as_slice()) {
                    return true;
                }
            }
        }
        i = i + 1;
    }
    false
}

/// Whether the connections in what `netstat` prints can be counted.
pub fn connections_fit(output: &str) -> (r: bool)
    ensures
        r == (tcp_rows(output@).len() <= u32::MAX),
{
    let cs = chars_of(output);
    find_rows(cs.as_slice()).len() as u64 <= u32::MAX as u64
}

/// Counts the TCP connections in what `netstat` prints, by their state.
pub fn parse_netstat_output(output: &str) -> (r: ConnectionCounts)
    requires
        tcp_rows(output@).len() <= u32::MAX,
    ensures
        counted(r, tcp_rows(output@), tcp_rows(output@)),
{
    let cs = chars_of(output);
    let rows = find_rows(cs.as_slice());
    let ghost cols = tcp_rows(output@);
    let established = chars_of("ESTABLISHED");
    let listen = chars_of("LISTEN");
    let time_wait = chars_of("TIME_WAIT");
    let close_wait = chars_of("CLOSE_WAIT");
    let mut counts: ConnectionCounts = ConnectionCounts::default();
    let mut i: usize = 0;
    proof {
        reveal(Seq::filter);
        assert(cols.take(0) == Seq::<Seq<Seq<char>>>::empty());
    }
    while i < rows.len()
        invariant
            i <= rows@.len(),
            cs@ == output@,
            cols == tcp_rows(output@),
            cols.len() <= u32::MAX,
            rows_of(cs@, rows@, cols),
            established@ == "ESTABLISHED"@,
            listen@ == "LISTEN"@,
            time_wait@ == "TIME_WAIT"@,
            close_wait@ == "CLOSE_WAIT"@,
            counted(counts, cols, cols.take(i as int)),
        decreases rows@.len() - i,
    {
        let row = &rows[i];
        let ghost now = cols[i as int];
        let ghost done = cols.take(i as int);
        proof {
            assert(row_of(cs@, rows@[i as int], now));
            assert(cols.take(i + 1) == done.push(now));
            lemma_counts_push(cols, done, now);
            lemma_states_distinct();
        }
        let (a, b) = row.state;
        let slice = cs.as_slice();
        counts.total = counts.total + 1;
        if is_at(slice, a, b, established.as_slice()) {
            counts.established = counts.established + 1;
            if !is_loopback_at(slice, row.foreign.0, row.foreign.1) {
                if let Some((x, y)) = port_bounds(slice, row.local.0, row.local.1) {
                    if is_listened_on(slice, &rows, x, y, Ghost(cols)) {
                        counts.incoming = counts.incoming + 1;
                    }
                }
            }
        } else if is_at(slice, a, b, listen.as_slice()) {
            counts.listen = counts.listen + 1;
        } else if is_at(slice, a, b, time_wait.as_slice()) {
            counts.time_wait = counts.time_wait + 1;
        } else if is_at(slice, a, b, close_wait.as_slice()) {
            counts.close_wait = counts.close_wait + 1;
        } else {
            counts.other = counts.other + 1;
        }
        i = i + 1;
    }
    assert(cols.take(i as int) == cols);
    counts
}

proof fn lemma_states_distinct()
    ensures
        "ESTABLISHED"@ != "LISTEN"@,
        "ESTABLISHED"@ != "TIME_WAIT"@,
        "ESTABLISHED"@ != "CLOSE_WAIT"@,
        "LISTEN"@ != "TIME_WAIT"@,
        "LISTEN"@ != "CLOSE_WAIT"@,
        "TIME_WAIT"@ != "CLOSE_WAIT"@,
{
    reveal_strlit("ESTABLISHED");
    reveal_strlit("LISTEN");
    reveal_strlit("TIME_WAIT");
    reveal_strlit("CLOSE_WAIT");
    assert("ESTABLISHED"@.len() == 11);
    assert("LISTEN"@.len() == 6);
    assert("TIME_WAIT"@.len() == 9);
    assert("CLOSE_WAIT"@.len() == 10);
}

/// What one more row adds to every count.
proof fn lemma_counts_push(
    all: Seq<Seq<Seq<char>>>,
    rows: Seq<Seq<Seq<char>>>,
    row: Seq<Seq<char>>,
)
    ensures
        forall|state: Seq<char>| #[trigger]
            in_state(rows.push(row), state) == in_state(rows, state) + if row[5] == state {
                1int
            } else {
                0
            },
        in_other_state(rows.push(row)) == in_other_state(rows) + if is_other(row) {
            1int
        } else {
            0
        },
        incoming_among(all, rows.push(row)) == incoming_among(all, rows) + if is_incoming(
            all,
            row,
        ) {
            1int
        } else {
            0
        },
        forall|state: Seq<char>| #[trigger] in_state(rows, state) <= rows.len(),
        in_other_state(rows) <= rows.len(),
        incoming_among(all, rows) <= rows.len(),
{
    broadcast use {Seq::lemma_filter_len_push, Seq::lemma_filter_len};

}

/// What `netstat` printed for the two families of addresses, one behind the
/// other, where it could be run for both; else what there is.
pub open spec fn netstat_text(inet: Option<Seq<char>>, inet6: Option<Seq<char>>) -> Option<
    Seq<char>,
> {
    match (inet, inet6) {
        (Some(a), Some(b)) => Some(a + "\n"@ + b),
        (Some(a), None) => Some(a),
        (None, Some(b)) => Some(b),
        (None, None) => None,
    }
}

/// What `netstat` printed for the two families of addresses: `None` for one
/// for which it could not be run.
pub fn netstat_output(inet: Option<&str>, inet6: Option<&str>) -> (r: Option<String>)
    ensures
        match r {
            Some(s) => netstat_text(optional_str(inet), optional_str(inet6)) == Some(s@),
            None => netstat_text(optional_str(inet), optional_str(inet6)) is None,
        },
{
    match (inet, inet6) {
        (Some(a), Some(b)) => {
            let mut r = a.to_string();
            r.append("\n");
            r.append(b);
            Some(r)
        },
        (Some(a), None) => Some(a.to_string()),
        (None, Some(b)) => Some(b.to_string()),
        (None, None) => None,
    }
}

/// Counts the TCP connections in what `netstat` printed for the two families
/// of addresses: `None` for one for which it could not be run. Nothing is
/// counted only where it could be run for neither.
pub fn collect_connections(inet: Option<&str>, inet6: Option<&str>) -> (r: Option<ConnectionCounts>)
    requires
        netstat_text(optional_str(inet), optional_str(inet6)) matches Some(text) ==> tcp_rows(
            text,
        ).len() <= u32::MAX,
    ensures
        r is None <==> inet is None && inet6 is None,
        match r {
            Some(counts) => netstat_text(optional_str(inet), optional_str(inet6)) matches Some(text)
                && counted(counts, tcp_rows(text), tcp_rows(text)),
            None => netstat_text(optional_str(inet), optional_str(inet6)) is None,
        },
{
    match netstat_output(inet, inet6) {
        Some(text) => Some(parse_netstat_output(text.as_str())),
        None => None,
    }
}

/// The counts by state add up to the total, and no more connections came in
/// than are established.
pub proof fn law_connection_totals(counts: ConnectionCounts, output: Seq<char>)
    requires
        counted(counts, tcp_rows(output), tcp_rows(output)),
    ensures
        counts.total == counts.established + counts.listen + counts.time_wait + counts.close_wait
            + counts.other,
        counts.incoming <= counts.established,
{
    lemma_totals(tcp_rows(output), tcp_rows(output));
}

proof fn lemma_totals(all: Seq<Seq<Seq<char>>>, rows: Seq<Seq<Seq<char>>>)
    ensures
        rows.len() == in_state(rows, "ESTABLISHED"@) + in_state(rows, "LISTEN"@) + in_state(
            rows,
            "TIME_WAIT"@,
        ) + in_state(rows, "CLOSE_WAIT"@) + in_other_state(rows),
        incoming_among(all, rows) <= in_state(rows, "ESTABLISHED"@),
    decreases rows.len(),
{
    if rows.len() > 0 {
        lemma_totals(all, rows.drop_last());
        lemma_counts_push(all, rows.drop_last(), rows.last());
        lemma_states_distinct();
        assert(rows == rows.drop_last().push(rows.last()));
    } else {
        reveal(Seq::filter);
    }
}

proof fn lemma_filter_len_permuted<A>(a: Seq<A>, b: Seq<A>, p: spec_fn(A) -> bool)
    requires
        a.to_multiset() == b.to_multiset(),
    ensures
        a.filter(p).len() == b.filter(p).len(),
    decreases a.len(),
{
    broadcast use vstd::seq_lib::group_to_multiset_ensures;

    reveal(Seq::filter);
    if a.len() > 0 {
        let x = a.last();
        let less = a.drop_last();
        assert(a == less.push(x));
        assert(a.to_multiset() == less.to_multiset().insert(x));
        assert(b.to_multiset().count(x) > 0);
        assert(b.contains(x));
        let k = choose|k: int| 0 <= k < b.len() && b[k] == x;
        let head = b.take(k);
        let tail = b.skip(k + 1);
        assert(b == head.push(x) + tail);
        assert(b.remove(k) == head + tail);
        assert(less.to_multiset() =~= b.remove(k).to_multiset());
        lemma_filter_len_permuted(less, b.remove(k), p);
        Seq::filter_distributes_over_add(head.push(x), tail, p);
        Seq::filter_distributes_over_add(head, tail, p);
        less.lemma_filter_len_push(p, x);
        head.lemma_filter_len_push(p, x);
    } else {
        assert(b.len() == a.to_multiset().len());
        assert(b == a);
    }
}

proof fn lemma_listens_permuted(a: Seq<Seq<Seq<char>>>, b: Seq<Seq<Seq<char>>>, p: Seq<char>)
    requires
        a.to_multiset() == b.to_multiset(),
        listens_on(a, p),
    ensures
        listens_on(b, p),
{
    broadcast use vstd::seq_lib::group_to_multiset_ensures;

    let i = choose|i: int|
        0 <= i < a.len() && (#[trigger] a[i])[5] == "LISTEN"@ && port(a[i][3]) == Some(p);
    assert(a.contains(a[i]));
    assert(a.to_multiset().count(a[i]) > 0);
    assert(b.contains(a[i]));
    let j = choose|j: int| 0 <= j < b.len() && b[j] == a[i];
    assert(b[j][5] == "LISTEN"@);
}

/// The order in which the connections are listed does not matter: every row
/// that listens counts for every other, wherever it stands.
pub proof fn law_row_order_does_not_matter(
    counts: ConnectionCounts,
    rows: Seq<Seq<Seq<char>>>,
    others: Seq<Seq<Seq<char>>>,
)
    requires
        rows.to_multiset() == others.to_multiset(),
        counted(counts, rows, rows),
    ensures
        counted(counts, others, others),
{
    broadcast use vstd::seq_lib::group_to_multiset_ensures;

    assert(rows.len() == rows.to_multiset().len() && others.len() == others.to_multiset().len());
    let came_in = |row: Seq<Seq<char>>| is_incoming(rows, row);
    assert forall|row: Seq<Seq<char>>| is_incoming(rows, row) == #[trigger] is_incoming(
        others,
        row,
    ) by {
        if port(row[3]) is Some {
            let p = port(row[3])->0;
            if listens_on(rows, p) {
                lemma_listens_permuted(rows, others, p);
            }
            if listens_on(others, p) {
                lemma_listens_permuted(others, rows, p);
            }
        }
    }
    assert(came_in =~= (|row: Seq<Seq<char>>| is_incoming(others, row)));
    lemma_filter_len_permuted(rows, others, came_in);
    lemma_filter_len_permuted(rows, others, |row: Seq<Seq<char>>| is_other(row));
    lemma_filter_len_permuted(rows, others, |row: Seq<Seq<char>>| row[5] == "ESTABLISHED"@);
    lemma_filter_len_permuted(rows, others, |row: Seq<Seq<char>>| row[5] == "LISTEN"@);
    lemma_filter_len_permuted(rows, others, |row: Seq<Seq<char>>| row[5] == "TIME_WAIT"@);
    lemma_filter_len_permuted(rows, others, |row: Seq<Seq<char>>| row[5] == "CLOSE_WAIT"@);
    assert(in_state(rows, "ESTABLISHED"@) == in_state(others, "ESTABLISHED"@));
    assert(in_state(rows, "LISTEN"@) == in_state(others, "LISTEN"@));
    assert(in_state(rows, "TIME_WAIT"@) == in_state(others, "TIME_WAIT"@));
    assert(in_state(rows, "CLOSE_WAIT"@) == in_state(others, "CLOSE_WAIT"@));
}

proof fn lemma_map_permuted<A, B>(a: Seq<A>, b: Seq<A>, f: spec_fn(A) -> B)
    requires
        a.to_multiset() == b.to_multiset(),
    ensures
        a.map_values(f).to_multiset() == b.map_values(f).to_multiset(),
    decreases a.len(),
{
    broadcast use vstd::seq_lib::group_to_multiset_ensures;

    if a.len() > 0 {
        let x = a.last();
        let less = a.drop_last();
        assert(a == less.push(x));
        assert(b.to_multiset().count(x) > 0);
        assert(b.contains(x));
        let k = choose|k: int| 0 <= k < b.len() && b[k] == x;
        assert(less.to_multiset() =~= b.remove(k).to_multiset());
        lemma_map_permuted(less, b.remove(k), f);
        assert(a.map_values(f) == less.map_values(f).push(f(x)));
        assert(b.map_values(f).remove(k) == b.remove(k).map_values(f));
        assert(b.map_values(f)[k] == f(x));
        assert(b.map_values(f).to_multiset() =~= b.remove(k).map_values(f).to_multiset().insert(
            f(x),
        ));
    } else {
        assert(b.len() == a.to_multiset().len());
        assert(b == a);
    }
}

proof fn lemma_filter_permuted<A>(a: Seq<A>, b: Seq<A>, p: spec_fn(A) -> bool)
    requires
        a.to_multiset() == b.to_multiset(),
    ensures
        a.filter(p).to_multiset() == b.filter(p).to_multiset(),
    decreases a.len(),
{
    broadcast use vstd::seq_lib::group_to_multiset_ensures;

    reveal(Seq::filter);
    if a.len() > 0 {
        let x = a.last();
        let less = a.drop_last();
        assert(a == less.push(x));
        assert(b.to_multiset().count(x) > 0);
        assert(b.contains(x));
        let k = choose|k: int| 0 <= k < b.len() && b[k] == x;
        let head = b.take(k);
        let tail = b.skip(k + 1);
        assert(b == head.push(x) + tail);
        assert(b.remove(k) == head + tail);
        assert(less.to_multiset() =~= b.remove(k).to_multiset());
        lemma_filter_permuted(less, b.remove(k), p);
        Seq::filter_distributes_over_add(head.push(x), tail, p);
        Seq::filter_distributes_over_add(head, tail, p);
        less.lemma_filter_push(x, p);
        head.lemma_filter_push(x, p);
        let kept = head.filter(p);
        let rest = tail.filter(p);
        if p(x) {
            vstd::seq_lib::lemma_multiset_commutative(kept.push(x), rest);
            vstd::seq_lib::lemma_multiset_commutative(kept, rest);
            assert(b.filter(p).to_multiset() =~= (kept + rest).to_multiset().insert(x));
        }
    } else {
        assert(b.len() == a.to_multiset().len());
        assert(b == a);
    }
}

/// The order of the lines that `netstat` prints does not matter: two outputs
/// with the same lines are counted alike.
pub proof fn law_line_order_does_not_matter(
    counts: ConnectionCounts,
    output: Seq<char>,
    other: Seq<char>,
)
    requires
        lines(output).to_multiset() == lines(other).to_multiset(),
        counted(counts, tcp_rows(output), tcp_rows(output)),
    ensures
        counted(counts, tcp_rows(other), tcp_rows(other)),
{
    let columns = |l: Seq<char>| words(l);
    let tcp = |cols: Seq<Seq<char>>| is_tcp(cols);
    lemma_map_permuted(lines(output), lines(other), columns);
    lemma_filter_permuted(lines(output).map_values(columns), lines(other).map_values(columns), tcp);
    law_row_order_does_not_matter(counts, tcp_rows(output), tcp_rows(other));
}

// ---------------------------------------------------------------- groups

/// How many of a group's members are named.
pub const OLDEST_SAMPLES_PER_GROUP: usize = 3;

/// Having that name.
pub open spec fn named(name: Seq<char>) -> spec_fn(ProcInfo) -> bool {
    |p: ProcInfo| p.name@ == name
}

/// The processes of that name.
pub open spec fn members(procs: Seq<ProcInfo>, name: Seq<char>) -> Seq<ProcInfo> {
    procs.filter(named(name))
}

pub open spec fn mem_sum(procs: Seq<ProcInfo>) -> nat
    decreases procs.len(),
{
    if procs.len() == 0 {
        0
    } else {
        mem_sum(procs.drop_last()) + procs.last().mem_bytes as nat
    }
}

/// One share more, in single precision, as far as there is room for it.
pub open spec fn share_sum(sum: nat, share: Fixed) -> nat {
    let bits = whole(sum + share.bits as nat, SINGLE as nat);
    if bits > u64::MAX {
        u64::MAX as nat
    } else {
        bits
    }
}

/// The processor shares added up one after the other.
pub open spec fn cpu_sum(procs: Seq<ProcInfo>) -> nat
    decreases procs.len(),
{
    if procs.len() == 0 {
        0
    } else {
        share_sum(cpu_sum(procs.drop_last()), procs.last().cpu_pct)
    }
}

fn add_share(sum: Fixed, share: Fixed) -> (r: Fixed)
    ensures
        r.bits == share_sum(sum.bits as nat, share),
{
    let bits = whole_of(sum.bits as u128 + share.bits as u128, SINGLE);
    if bits > u64::MAX as u128 {
        Fixed { bits: u64::MAX }
    } else {
        Fixed { bits: bits as u64 }
    }
}

/// The process that uses the most memory, the first one of several.
pub open spec fn heaviest(procs: Seq<ProcInfo>) -> ProcInfo
    decreases procs.len(),
{
    if procs.len() <= 1 {
        procs[0]
    } else {
        let h = heaviest(procs.drop_last());
        if procs.last().mem_bytes > h.mem_bytes {
            procs.last()
        } else {
            h
        }
    }
}

pub open spec fn sample_of(p: ProcInfo) -> ProcSample {
    ProcSample { pid: p.pid, ppid: p.ppid, run_time_secs: p.run_time_secs }
}

/// Where a process that has run for `secs` belongs among `samples`, which
/// stand in the order of their age: behind those that are as old.
pub open spec fn slot(samples: Seq<ProcSample>, secs: u64) -> int
    decreases samples.len(),
{
    if samples.len() > 0 && samples.last().run_time_secs < secs {
        slot(samples.drop_last(), secs)
    } else {
        samples.len() as int
    }
}

/// The longest-running of `procs`, the oldest first, and of two equally old
/// the one that comes first.
pub open spec fn oldest_of(procs: Seq<ProcInfo>) -> Seq<ProcSample>
    decreases procs.len(),
{
    if procs.len() == 0 {
        Seq::empty()
    } else {
        let known = oldest_of(procs.drop_last());
        let p = procs.last();
        let grown = known.insert(slot(known, p.run_time_secs), sample_of(p));
        if grown.len() > OLDEST_SAMPLES_PER_GROUP {
            grown.take(OLDEST_SAMPLES_PER_GROUP as int)
        } else {
            grown
        }
    }
}

/// `g` is the group that the processes `m`, all of one name, make up.
pub open spec fn is_group(g: ProcGroup, m: Seq<ProcInfo>) -> bool {
    &&& m.len() > 0
    &&& g.count == m.len()
    &&& g.total_cpu_pct.bits == cpu_sum(m)
    &&& g.total_mem_bytes == mem_sum(m)
    &&& g.top_pid == heaviest(m).pid
    &&& g.oldest@ == oldest_of(m)
}

/// No group's totals are more than their fields hold.
pub open spec fn groups_fit(procs: Seq<ProcInfo>) -> bool {
    forall|name: Seq<char>|
        {
            let m = #[trigger] members(procs, name);
            m.len() <= u32::MAX && mem_sum(m) <= u64::MAX
        }
}

proof fn lemma_members_are_fewer(procs: Seq<ProcInfo>, name: Seq<char>)
    ensures
        members(procs, name).len() <= procs.len(),
        mem_sum(members(procs, name)) <= mem_sum(procs),
    decreases procs.len(),
{
    if procs.len() > 0 {
        let less = procs.drop_last();
        let p = procs.last();
        lemma_members_are_fewer(less, name);
        less.lemma_filter_push(p, named(name));
        assert(procs == less.push(p));
        let m = members(less, name);
        assert(m.push(p).drop_last() == m);
    } else {
        reveal(Seq::filter);
    }
}

/// Whether the totals of all processes together are no more than the fields
/// of a group hold. Then no group's are.
pub fn totals_fit(procs: &Vec<ProcInfo>) -> (r: bool)
    ensures
        r == (procs@.len() <= u32::MAX && mem_sum(procs@) <= u64::MAX),
        r ==> groups_fit(procs@),
{
    let mut mem: u128 = 0;
    let mut i: usize = 0;
    assert(procs@.take(0) == Seq::<ProcInfo>::empty());
    while i < procs.len()
        invariant
            i <= procs@.len(),
            mem == mem_sum(procs@.take(i as int)),
            mem <= i * 0xffff_ffff_ffff_ffff,
        decreases procs@.len() - i,
    {
        assert(procs@.take(i + 1).drop_last() == procs@.take(i as int));
        mem = mem + procs[i].mem_bytes as u128;
        i = i + 1;
    }
    assert(procs@.take(i as int) == procs@);
    proof {
        assert forall|name: Seq<char>|
            procs@.len() <= u32::MAX && mem_sum(procs@) <= u64::MAX implies ({
            let m = #[trigger] members(procs@, name);
            m.len() <= u32::MAX && mem_sum(m) <= u64::MAX
        }) by {
            lemma_members_are_fewer(procs@, name);
        }
    }
    procs.len() as u64 <= u32::MAX as u64 && mem <= u64::MAX as u128
}

/// `groups` is one group for every name that occurs among `procs`, the
/// largest combined memory first.
pub open spec fn grouped(groups: Seq<ProcGroup>, procs: Seq<ProcInfo>) -> bool {
    &&& forall|i: int|
        0 <= i < groups.len() ==> is_group(
            #[trigger] groups[i],
            members(procs, groups[i].name@),
        )
    &&& forall|i: int, j: int|
        #![trigger groups[i], groups[j]]
        0 <= i < j < groups.len() ==> groups[i].name@ != groups[j].name@
            && groups[i].total_mem_bytes >= groups[j].total_mem_bytes
    &&& forall|k: int| 0 <= k < procs.len() ==> has_group(groups, (#[trigger] procs[k]).name@)
}

/// One of `groups` has that name.
pub open spec fn has_group(groups: Seq<ProcGroup>, name: Seq<char>) -> bool {
    exists|i: int| 0 <= i < groups.len() && (#[trigger] groups[i]).name@ == name
}

struct Tally {
    group: ProcGroup,
    top_mem: u64,
}

spec fn tallied(t: Tally, m: Seq<ProcInfo>) -> bool {
    is_group(t.group, m) && t.top_mem == heaviest(m).mem_bytes
}

/// The tallies of the first `n` of `procs`.
spec fn tallies_of(ts: Seq<Tally>, procs: Seq<ProcInfo>) -> bool {
    &&& forall|i: int|
        0 <= i < ts.len() ==> tallied(#[trigger] ts[i], members(procs, ts[i].group.name@))
    &&& forall|i: int, j: int|
        #![trigger ts[i], ts[j]]
        0 <= i < j < ts.len() ==> ts[i].group.name@ != ts[j].group.name@
    &&& forall|k: int| 0 <= k < procs.len() ==> has_tally(ts, (#[trigger] procs[k]).name@)
}

spec fn has_tally(ts: Seq<Tally>, name: Seq<char>) -> bool {
    exists|i: int| 0 <= i < ts.len() && (#[trigger] ts[i]).group.name@ == name
}

proof fn lemma_sums_grow(m: Seq<ProcInfo>, n: int)
    requires
        0 <= n <= m.len(),
    ensures
        mem_sum(m.take(n)) <= mem_sum(m),
    decreases m.len() - n,
{
    if n < m.len() {
        lemma_sums_grow(m, n + 1);
        assert(m.take(n + 1).drop_last() == m.take(n));
    } else {
        assert(m.take(n) == m);
    }
}

/// The members among the first `n` processes are the first of the members.
proof fn lemma_members_prefix(procs: Seq<ProcInfo>, n: int, name: Seq<char>)
    requires
        0 <= n <= procs.len(),
    ensures
        members(procs.take(n), name).len() <= members(procs, name).len(),
        mem_sum(members(procs.take(n), name)) <= mem_sum(members(procs, name)),
{
    let has = named(name);
    let a = procs.take(n);
    let b = procs.skip(n);
    assert(procs == a + b);
    Seq::filter_distributes_over_add(a, b, has);
    let m = members(procs, name);
    let k = members(a, name).len() as int;
    assert(m.take(k) == members(a, name));
    lemma_sums_grow(m, k);
}

fn find_tally(ts: &Vec<Tally>, name: &String) -> (r: usize)
    ensures
        r <= ts@.len(),
        r < ts@.len() ==> ts@[r as int].group.name@ == name@,
        r == ts@.len() ==> forall|i: int|
            0 <= i < ts@.len() ==> (#[trigger] ts@[i]).group.name@ != name@,
{
    let mut i: usize = 0;
    while i < ts.len()
        invariant
            i <= ts@.len(),
            forall|j: int| 0 <= j < i ==> (#[trigger] ts@[j]).group.name@ != name@,
        decreases ts@.len() - i,
    {
        if ts[i].group.name == *name {
            return i;
        }
        i = i + 1;
    }
    i
}

/// Puts a process among the oldest known of its group.
fn record_age(known: &mut Vec<ProcSample>, p: &ProcInfo, Ghost(m): Ghost<Seq<ProcInfo>>)
    requires
        old(known)@ == oldest_of(m),
        oldest_of(m).len() <= OLDEST_SAMPLES_PER_GROUP,
    ensures
        final(known)@ == oldest_of(m.push(*p)),
        final(known)@.len() <= OLDEST_SAMPLES_PER_GROUP,
{
    let ghost before = known@;
    let mut at: usize = known.len();
    assert(before.take(at as int) == before);
    while at > 0 && known[at - 1].run_time_secs < p.run_time_secs
        invariant
            at <= known@.len(),
            known@ == before,
            slot(before, p.run_time_secs) == slot(before.take(at as int), p.run_time_secs),
        decreases at,
    {
        assert(before.take(at as int).drop_last() == before.take(at - 1));
        at = at - 1;
    }
    assert(at == slot(before, p.run_time_secs));
    known.insert(
        at,
        ProcSample { pid: p.pid, ppid: p.ppid, run_time_secs: p.run_time_secs },
    );
    assert(m.push(*p).drop_last() == m);
    if known.len() > OLDEST_SAMPLES_PER_GROUP {
        known.truncate(OLDEST_SAMPLES_PER_GROUP);
    }
}

fn tally(procs: &Vec<ProcInfo>) -> (r: Vec<Tally>)
    requires
        groups_fit(procs@),
    ensures
        tallies_of(r@, procs@),
{
    let mut ts: Vec<Tally> = Vec::new();
    let mut n: usize = 0;
    while n < procs.len()
        invariant
            n <= procs@.len(),
            groups_fit(procs@),
            tallies_of(ts@, procs@.take(n as int)),
        decreases procs@.len() - n,
    {
        let p = &procs[n];
        let ghost had = procs@.take(n as int);
        let ghost has = procs@.take(n + 1);
        let ghost before = ts@;
        let at = find_tally(&ts, &p.name);
        proof {
            assert(has == had.push(*p));
            lemma_members_prefix(procs@, n + 1, p.name@);
            assert forall|name: Seq<char>| #[trigger]
                members(has, name) == if p.name@ == name {
                    members(had, name).push(*p)
                } else {
                    members(had, name)
                } by {
                had.lemma_filter_push(*p, named(name));
            }
        }
        if at < ts.len() {
            let mut t = ts.remove(at);
            let ghost m = members(had, p.name@);
            assert(tallied(before[at as int], m));
            assert(m.push(*p).drop_last() == m);
            proof {
                lemma_oldest_len(m);
            }
            t.group.count = t.group.count + 1;
            t.group.total_cpu_pct = add_share(t.group.total_cpu_pct, p.cpu_pct);
            t.group.total_mem_bytes = t.group.total_mem_bytes + p.mem_bytes;
            if p.mem_bytes > t.top_mem {
                t.top_mem = p.mem_bytes;
                t.group.top_pid = p.pid;
            }
            record_age(&mut t.group.oldest, p, Ghost(m));
            assert(tallied(t, m.push(*p)));
            ts.insert(at, t);
            proof {
                assert forall|i: int| 0 <= i < ts@.len() implies tallied(
                    #[trigger] ts@[i],
                    members(has, ts@[i].group.name@),
                ) by {
                    assert(tallied(before[i], members(had, before[i].group.name@)));
                    if i != at {
                        assert(ts@[i] == before[i]);
                        let a = if i < at { i } else { at as int };
                        let b = if i < at { at as int } else { i };
                        assert(before[a].group.name@ != before[b].group.name@);
                    }
                }
                assert forall|i: int, j: int|
                    #![trigger ts@[i], ts@[j]]
                    0 <= i < j < ts@.len() implies ts@[i].group.name@ != ts@[j].group.name@ by {
                    assert(before[i].group.name@ != before[j].group.name@);
                }
                assert forall|k: int| 0 <= k < has.len() implies has_tally(
                    ts@,
                    (#[trigger] has[k]).name@,
                ) by {
                    if k < n {
                        assert(had[k] == has[k]);
                        let i = choose|i: int|
                            0 <= i < before.len() && (#[trigger] before[i]).group.name@
                                == had[k].name@;
                        assert(ts@[i].group.name@ == has[k].name@);
                    } else {
                        assert(ts@[at as int].group.name@ == has[k].name@);
                    }
                }
            }
        } else {
            let ghost m = members(had, p.name@);
            proof {
                assert(m.len() == 0) by {
                    if m.len() > 0 {
                        had.lemma_filter_contains_rev(named(p.name@), m[0]);
                        let k = choose|k: int| 0 <= k < had.len() && had[k] == m[0];
                        had.lemma_filter_pred(named(p.name@), 0);
                        assert(had[k].name@ == p.name@);
                        let i = choose|i: int|
                            0 <= i < ts@.len() && (#[trigger] ts@[i]).group.name@ == had[k].name@;
                    }
                }
                assert(m.push(*p).drop_last() == m);
                assert(m == Seq::<ProcInfo>::empty());
            }
            let mut oldest: Vec<ProcSample> = Vec::new();
            record_age(&mut oldest, p, Ghost(m));
            let t = Tally {
                group: ProcGroup {
                    name: p.name.clone(),
                    count: 1,
                    total_cpu_pct: add_share(Fixed { bits: 0 }, p.cpu_pct),
                    total_mem_bytes: p.mem_bytes,
                    top_pid: p.pid,
                    oldest,
                },
                top_mem: p.mem_bytes,
            };
            proof {
                let one = m.push(*p);
                assert(one[0] == *p && one.len() == 1);
                assert(cpu_sum(m) == 0 && mem_sum(m) == 0);
                assert(cpu_sum(one) == share_sum(0, p.cpu_pct));
                assert(mem_sum(one) == p.mem_bytes);
                assert(heaviest(one) == *p);
            }
            assert(tallied(t, m.push(*p)));
            ts.push(t);
            proof {
                assert forall|i: int| 0 <= i < ts@.len() implies tallied(
                    #[trigger] ts@[i],
                    members(has, ts@[i].group.name@),
                ) by {
                    if i < before.len() {
                        assert(ts@[i] == before[i]);
                        assert(tallied(before[i], members(had, before[i].group.name@)));
                    }
                }
                assert forall|k: int| 0 <= k < has.len() implies has_tally(
                    ts@,
                    (#[trigger] has[k]).name@,
                ) by {
                    if k < n {
                        assert(had[k] == has[k]);
                        let i = choose|i: int|
                            0 <= i < before.len() && (#[trigger] before[i]).group.name@
                                == had[k].name@;
                        assert(ts@[i].group.name@ == has[k].name@);
                    } else {
                        assert(ts@[before.len() as int].group.name@ == has[k].name@);
                    }
                }
            }
        }
        n = n + 1;
    }
    assert(procs@.take(n as int) == procs@);
    ts
}

proof fn lemma_oldest_len(m: Seq<ProcInfo>)
    ensures
        oldest_of(m).len() <= OLDEST_SAMPLES_PER_GROUP,
        oldest_of(m).len() <= m.len(),
        m.len() >= OLDEST_SAMPLES_PER_GROUP ==> oldest_of(m).len() == OLDEST_SAMPLES_PER_GROUP,
        m.len() < OLDEST_SAMPLES_PER_GROUP ==> oldest_of(m).len() == m.len(),
    decreases m.len(),
{
    if m.len() > 0 {
        lemma_oldest_len(m.drop_last());
        lemma_slot(oldest_of(m.drop_last()), m.last().run_time_secs);
    }
}

proof fn lemma_slot(samples: Seq<ProcSample>, secs: u64)
    ensures
        0 <= slot(samples, secs) <= samples.len(),
        forall|i: int|
            slot(samples, secs) <= i < samples.len() ==> (#[trigger] samples[i]).run_time_secs
                < secs,
        slot(samples, secs) > 0 ==> samples[slot(samples, secs) - 1].run_time_secs >= secs,
    decreases samples.len(),
{
    if samples.len() > 0 && samples.last().run_time_secs < secs {
        lemma_slot(samples.drop_last(), secs);
        assert forall|i: int| slot(samples, secs) <= i < samples.len() implies (
        #[trigger] samples[i]).run_time_secs < secs by {
            if i < samples.len() - 1 {
                assert(samples.drop_last()[i] == samples[i]);
            }
        }
    }
}

/// Aggregates processes by name: every instance of one program combined,
/// the largest combined memory first.
pub fn group_by_name(procs: &Vec<ProcInfo>) -> (r: Vec<ProcGroup>)
    requires
        groups_fit(procs@),
    ensures
        grouped(r@, procs@),
{
    let ts = tally(procs);
    let mut keys: Vec<u64> = Vec::new();
    let mut i: usize = 0;
    while i < ts.len()
        invariant
            i <= ts@.len(),
            keys@.len() == i,
            forall|j: int|
                0 <= j < i ==> (#[trigger] keys@[j]) == ts@[j].group.total_mem_bytes,
        decreases ts@.len() - i,
    {
        keys.push(ts[i].group.total_mem_bytes);
        i = i + 1;
    }
    let order = descending_order(&keys);
    let mut r: Vec<ProcGroup> = Vec::new();
    let mut i: usize = 0;
    while i < order.len()
        invariant
            i <= order@.len(),
            keys@.len() == ts@.len(),
            descending(keys@, order@),
            tallies_of(ts@, procs@),
            r@.len() == i,
            forall|j: int|
                #![trigger r@[j]]
                0 <= j < i ==> {
                    let g = ts@[order@[j] as int].group;
                    r@[j].name == g.name && r@[j].total_mem_bytes == g.total_mem_bytes && is_group(
                        r@[j],
                        members(procs@, r@[j].name@),
                    )
                },
        decreases order@.len() - i,
    {
        let k = order[i];
        assert(tallied(ts@[k as int], members(procs@, ts@[k as int].group.name@)));
        r.push(ts[k].group.clone());
        i = i + 1;
    }
    proof {
        assert forall|i: int, j: int|
            #![trigger r@[i], r@[j]]
            0 <= i < j < r@.len() implies r@[i].name@ != r@[j].name@ && r@[i].total_mem_bytes
            >= r@[j].total_mem_bytes by {
            assert(precedes(keys@, order@[i], order@[j]));
            let x = order@[i] as int;
            let y = order@[j] as int;
            if x < y {
                assert(ts@[x].group.name@ != ts@[y].group.name@);
            } else {
                assert(ts@[y].group.name@ != ts@[x].group.name@);
            }
        }
        assert forall|k: int| 0 <= k < procs@.len() implies has_group(
            r@,
            (#[trigger] procs@[k]).name@,
        ) by {
            let t = choose|i: int|
                0 <= i < ts@.len() && (#[trigger] ts@[i]).group.name@ == procs@[k].name@;
            crate::order::lemma_descending_complete(keys@, order@, t);
            let i = choose|i: int| 0 <= i < order@.len() && (#[trigger] order@[i]) == t;
            assert(r@[i].name@ == procs@[k].name@);
        }
    }
    r
}

/// The named members of a group are its longest-running ones, the oldest
/// first: as many as may be named, each of them a member, and no member that
/// is left out has run for longer than one that is named.
pub proof fn law_oldest_have_run_longest(m: Seq<ProcInfo>)
    ensures
        oldest_of(m).len() == if m.len() < OLDEST_SAMPLES_PER_GROUP {
            m.len() as int
        } else {
            OLDEST_SAMPLES_PER_GROUP as int
        },
        forall|i: int, j: int|
            #![trigger oldest_of(m)[i], oldest_of(m)[j]]
            0 <= i < j < oldest_of(m).len() ==> oldest_of(m)[i].run_time_secs >= oldest_of(
                m,
            )[j].run_time_secs,
        forall|i: int|
            0 <= i < oldest_of(m).len() ==> is_sample(m, #[trigger] oldest_of(m)[i]),
        forall|k: int|
            0 <= k < m.len() ==> oldest_of(m).contains(sample_of(#[trigger] m[k])) || (oldest_of(
                m,
            ).len() == OLDEST_SAMPLES_PER_GROUP && m[k].run_time_secs <= oldest_of(
                m,
            ).last().run_time_secs),
{
    lemma_oldest_len(m);
    lemma_oldest_sorted(m);
    lemma_oldest_members(m);
    lemma_oldest_complete(m);
}

/// A further member is named behind those that have run as long or longer and
/// before the others, and of four the last is dropped.
pub proof fn law_oldest_keeps_order(m: Seq<ProcInfo>, p: ProcInfo, at: int)
    requires
        0 <= at <= oldest_of(m).len(),
        forall|i: int|
            0 <= i < at ==> (#[trigger] oldest_of(m)[i]).run_time_secs >= p.run_time_secs,
        forall|i: int|
            at <= i < oldest_of(m).len() ==> (#[trigger] oldest_of(m)[i]).run_time_secs
                < p.run_time_secs,
    ensures
        ({
            let grown = oldest_of(m).insert(
                at,
                ProcSample { pid: p.pid, ppid: p.ppid, run_time_secs: p.run_time_secs },
            );
            oldest_of(m.push(p)) == if grown.len() > 3 {
                grown.take(3)
            } else {
                grown
            }
        }),
{
    let known = oldest_of(m);
    assert(m.push(p).drop_last() =~= m);
    lemma_slot(known, p.run_time_secs);
    let s = slot(known, p.run_time_secs);
    if s < at {
        assert(known[s].run_time_secs < p.run_time_secs);
    }
    if s > at {
        assert(known[s - 1].run_time_secs >= p.run_time_secs);
    }
}

/// One step of `oldest_of`, spelled out.
proof fn lemma_oldest_step(m: Seq<ProcInfo>, known: Seq<ProcSample>, at: int, grown: Seq<ProcSample>)
    requires
        m.len() > 0,
        known == oldest_of(m.drop_last()),
        at == slot(known, m.last().run_time_secs),
        grown == known.insert(at, sample_of(m.last())),
    ensures
        0 <= at <= known.len(),
        known.len() <= OLDEST_SAMPLES_PER_GROUP,
        grown.len() == known.len() + 1,
        grown[at] == sample_of(m.last()),
        forall|i: int| 0 <= i < at ==> (#[trigger] grown[i]) == known[i],
        forall|i: int| at < i < grown.len() ==> (#[trigger] grown[i]) == known[i - 1],
        oldest_of(m).len() <= grown.len(),
        forall|i: int| 0 <= i < oldest_of(m).len() ==> (#[trigger] oldest_of(m)[i]) == grown[i],
{
    lemma_oldest_len(m.drop_last());
    lemma_slot(known, m.last().run_time_secs);
}

proof fn lemma_oldest_sorted(m: Seq<ProcInfo>)
    ensures
        forall|i: int, j: int|
            #![trigger oldest_of(m)[i], oldest_of(m)[j]]
            0 <= i < j < oldest_of(m).len() ==> oldest_of(m)[i].run_time_secs >= oldest_of(
                m,
            )[j].run_time_secs,
    decreases m.len(),
{
    if m.len() > 0 {
        let known = oldest_of(m.drop_last());
        let at = slot(known, m.last().run_time_secs);
        let grown = known.insert(at, sample_of(m.last()));
        let now = oldest_of(m);
        lemma_oldest_sorted(m.drop_last());
        lemma_slot(known, m.last().run_time_secs);
        lemma_oldest_step(m, known, at, grown);
        assert forall|i: int, j: int|
            #![trigger now[i], now[j]]
            0 <= i < j < now.len() implies now[i].run_time_secs >= now[j].run_time_secs by {
            assert(now[i] == grown[i] && now[j] == grown[j]);
            if j < at {
                assert(known[i].run_time_secs >= known[j].run_time_secs);
            } else if i > at {
                assert(known[i - 1].run_time_secs >= known[j - 1].run_time_secs);
            } else if i == at {
                assert(known[j - 1].run_time_secs < m.last().run_time_secs);
            } else if j == at {
                if i < at - 1 {
                    assert(known[i].run_time_secs >= known[at - 1].run_time_secs);
                }
            } else if i < j - 1 {
                assert(known[i].run_time_secs >= known[j - 1].run_time_secs);
            }
        }
    }
}

proof fn lemma_oldest_members(m: Seq<ProcInfo>)
    ensures
        forall|i: int|
            0 <= i < oldest_of(m).len() ==> is_sample(m, #[trigger] oldest_of(m)[i]),
    decreases m.len(),
{
    if m.len() > 0 {
        let less = m.drop_last();
        let known = oldest_of(less);
        let at = slot(known, m.last().run_time_secs);
        let grown = known.insert(at, sample_of(m.last()));
        let now = oldest_of(m);
        lemma_oldest_members(less);
        lemma_oldest_step(m, known, at, grown);
        assert forall|i: int| 0 <= i < now.len() implies is_sample(m, #[trigger] now[i]) by {
            if i == at {
                assert(sample_of(m[m.len() - 1]) == now[i]);
            } else {
                let x = if i < at { i } else { i - 1 };
                assert(is_sample(less, known[x]));
                let k = choose|k: int|
                    0 <= k < less.len() && sample_of(#[trigger] less[k]) == known[x];
                assert(sample_of(m[k]) == now[i]);
            }
        }
    }
}

/// A process is named, or is no older than any that is.
spec fn accounted_for(named: Seq<ProcSample>, p: ProcInfo) -> bool {
    named.contains(sample_of(p)) || (named.len() == OLDEST_SAMPLES_PER_GROUP && p.run_time_secs
        <= named.last().run_time_secs)
}

proof fn lemma_oldest_complete(m: Seq<ProcInfo>)
    ensures
        forall|k: int| 0 <= k < m.len() ==> accounted_for(oldest_of(m), #[trigger] m[k]),
    decreases m.len(),
{
    if m.len() > 0 {
        let less = m.drop_last();
        let p = m.last();
        let known = oldest_of(less);
        let at = slot(known, p.run_time_secs);
        let grown = known.insert(at, sample_of(p));
        let now = oldest_of(m);
        lemma_oldest_complete(less);
        lemma_oldest_len(m);
        lemma_oldest_len(less);
        lemma_oldest_sorted(less);
        lemma_oldest_sorted(m);
        lemma_slot(known, p.run_time_secs);
        lemma_oldest_step(m, known, at, grown);
        assert forall|k: int| 0 <= k < m.len() implies accounted_for(now, #[trigger] m[k]) by {
            let s = sample_of(m[k]);
            if k == less.len() {
                if at < now.len() {
                    assert(now[at] == s);
                } else {
                    assert(now.last() == known[at - 1]);
                }
            } else {
                assert(accounted_for(known, less[k]));
                if known.contains(s) {
                    let x = choose|x: int| 0 <= x < known.len() && known[x] == s;
                    let i = if x < at { x } else { x + 1 };
                    assert(grown[i] == s);
                    if i < now.len() {
                        assert(now[i] == s);
                    } else {
                        assert(x == now.len() - 1);
                        if at < now.len() - 1 {
                            assert(now.last() == known[now.len() - 2]);
                            assert(known[now.len() - 2].run_time_secs >= known[x].run_time_secs);
                        }
                    }
                } else {
                    let last = now.len() - 1;
                    if at < last {
                        assert(now[last] == known[last - 1]);
                        assert(known[last - 1].run_time_secs >= known[last].run_time_secs);
                    } else if at == last {
                        assert(known[last].run_time_secs < p.run_time_secs);
                    } else {
                        assert(now[last] == known[last]);
                    }
                }
            }
        }
    }
}

/// `s` stands for one of the processes `m`.
pub open spec fn is_sample(m: Seq<ProcInfo>, s: ProcSample) -> bool {
    exists|k: int| 0 <= k < m.len() && sample_of(#[trigger] m[k]) == s
}

/// What the processes of that name weigh together.
spec fn weight(procs: Seq<ProcInfo>, name: Seq<char>, w: spec_fn(ProcInfo) -> nat) -> nat
    decreases procs.len(),
{
    if procs.len() == 0 {
        0
    } else {
        weight(procs.drop_last(), name, w) + if procs.last().name@ == name {
            w(procs.last())
        } else {
            0
        }
    }
}

proof fn lemma_weight_sums(procs: Seq<ProcInfo>, name: Seq<char>)
    ensures
        members(procs, name).len() == weight(procs, name, |p: ProcInfo| 1),
        mem_sum(members(procs, name)) == weight(procs, name, |p: ProcInfo| p.mem_bytes as nat),
    decreases procs.len(),
{
    if procs.len() > 0 {
        let less = procs.drop_last();
        let p = procs.last();
        lemma_weight_sums(less, name);
        less.lemma_filter_push(p, named(name));
        assert(less.push(p) == procs);
        assert(members(less, name).push(p).drop_last() == members(less, name));
    } else {
        reveal(Seq::filter);
        assert(members(procs, name) == Seq::<ProcInfo>::empty());
    }
}

proof fn lemma_weight_remove(
    procs: Seq<ProcInfo>,
    name: Seq<char>,
    w: spec_fn(ProcInfo) -> nat,
    k: int,
)
    requires
        0 <= k < procs.len(),
    ensures
        weight(procs, name, w) == weight(procs.remove(k), name, w) + if procs[k].name@ == name {
            w(procs[k])
        } else {
            0
        },
    decreases procs.len(),
{
    let less = procs.remove(k);
    if k < procs.len() - 1 {
        lemma_weight_remove(procs.drop_last(), name, w, k);
        assert(less.drop_last() == procs.drop_last().remove(k));
        assert(less.last() == procs.last());
    } else {
        assert(less == procs.drop_last());
    }
}

proof fn lemma_weight_permuted(
    a: Seq<ProcInfo>,
    b: Seq<ProcInfo>,
    name: Seq<char>,
    w: spec_fn(ProcInfo) -> nat,
)
    requires
        a.to_multiset() == b.to_multiset(),
    ensures
        weight(a, name, w) == weight(b, name, w),
    decreases a.len(),
{
    broadcast use vstd::seq_lib::group_to_multiset_ensures;

    assert(a.len() == a.to_multiset().len() && b.len() == b.to_multiset().len());
    if a.len() > 0 {
        let x = a.last();
        assert(a.contains(x));
        assert(b.to_multiset().count(x) > 0);
        assert(b.contains(x));
        let k = choose|k: int| 0 <= k < b.len() && b[k] == x;
        assert(a.remove(a.len() - 1) =~= a.drop_last());
        vstd::seq_lib::to_multiset_remove(a, a.len() - 1);
        vstd::seq_lib::to_multiset_remove(b, k);
        lemma_weight_permuted(a.drop_last(), b.remove(k), name, w);
        lemma_weight_remove(b, name, w, k);
    }
}

proof fn lemma_groups_fit_permuted(a: Seq<ProcInfo>, b: Seq<ProcInfo>)
    requires
        a.to_multiset() == b.to_multiset(),
        groups_fit(a),
    ensures
        groups_fit(b),
{
    assert forall|name: Seq<char>|
        {
            let m = #[trigger] members(b, name);
            m.len() <= u32::MAX && mem_sum(m) <= u64::MAX
        } by {
        lemma_weight_sums(a, name);
        lemma_weight_sums(b, name);
        lemma_weight_permuted(a, b, name, |p: ProcInfo| 1);
        lemma_weight_permuted(a, b, name, |p: ProcInfo| p.mem_bytes as nat);
        assert(members(a, name).len() <= u32::MAX);
    }
}

// -------------------------------------------------------------- assembly

/// How much of a process's command line is kept.
pub const COMMAND_LEN: usize = 200;

/// The arguments of a process as one line, cut off at a length.
pub open spec fn command_text(args: Seq<Seq<char>>) -> Seq<char> {
    first(join(args, " "@), COMMAND_LEN as nat)
}

/// The first `n` of `s`, or all of it.
pub open spec fn first<A>(s: Seq<A>, n: nat) -> Seq<A> {
    if s.len() > n {
        s.take(n as int)
    } else {
        s
    }
}

/// The arguments of a process as one line, cut off at a length.
pub fn command_line(args: &Vec<String>) -> (r: String)
    ensures
        r@ == command_text(crate::text::texts(args@)),
{
    let line = crate::text::joined(args, " ");
    let cs = chars_of(line.as_str());
    if cs.len() > COMMAND_LEN {
        text_of(cs.as_slice(), 0, COMMAND_LEN)
    } else {
        line
    }
}

/// A disk as the system reports it.
pub struct RawDisk {
    pub mount_point: String,
    pub total_bytes: u64,
    pub available_bytes: u64,
}

/// The share of a disk that is in use, in single precision and in units of
/// 2^-32 percent.
pub open spec fn used_bits(total: nat, available: nat) -> nat {
    let used: nat = if available < total {
        (total - available) as nat
    } else {
        0
    };
    let q = times(ratio(used, total, SINGLE as nat), 100, SINGLE as nat);
    q.0 * ONE as nat / q.1
}

/// `d` describes the disk `raw`.
pub open spec fn describes_disk(d: DiskInfo, raw: RawDisk) -> bool {
    &&& d.mount_point@ == raw.mount_point@
    &&& d.total_bytes == raw.total_bytes
    &&& d.available_bytes == raw.available_bytes
    &&& d.used_pct.bits == used_bits(raw.total_bytes as nat, raw.available_bytes as nat)
}

/// The disks that hold anything at all.
pub open spec fn real_disks(raw: Seq<RawDisk>) -> Seq<RawDisk> {
    raw.filter(|d: RawDisk| d.total_bytes > 0)
}

/// Describes every disk that holds anything at all, in the order given.
pub fn collect_disks(raw: &Vec<RawDisk>) -> (r: Vec<DiskInfo>)
    ensures
        r@.len() == real_disks(raw@).len(),
        forall|i: int|
            0 <= i < r@.len() ==> describes_disk(#[trigger] r@[i], real_disks(raw@)[i]) && r@[i]
                .used_pct.bits <= 100 * ONE,
{
    let mut r: Vec<DiskInfo> = Vec::new();
    let mut i: usize = 0;
    proof {
        reveal(Seq::filter);
        assert(raw@.take(0) == Seq::<RawDisk>::empty());
    }
    while i < raw.len()
        invariant
            i <= raw@.len(),
            r@.len() == real_disks(raw@.take(i as int)).len(),
            forall|k: int|
                0 <= k < r@.len() ==> describes_disk(
                    #[trigger] r@[k],
                    real_disks(raw@.take(i as int))[k],
                ) && r@[k].used_pct.bits <= 100 * ONE,
        decreases raw@.len() - i,
    {
        let d = &raw[i];
        proof {
            let holds = |d: RawDisk| d.total_bytes > 0;
            raw@.take(i as int).lemma_filter_push(*d, holds);
            assert(raw@.take(i + 1) == raw@.take(i as int).push(*d));
        }
        if d.total_bytes > 0 {
            let used: u64 = d.total_bytes.saturating_sub(d.available_bytes);
            let (a, b) = multiply(ratio_of(used, d.total_bytes, SINGLE), 100, SINGLE);
            assert(a * ONE <= u128::MAX) by (nonlinear_arith)
                requires
                    0 <= a <= 0x4_0000_0000_0000_0000 * 200,
                    ONE == 4294967296,
            ;
            let bits: u128 = a * ONE as u128 / b;
            proof {
                lemma_at_most_all(used as nat, d.total_bytes as nat);
                assert(bits <= 100 * ONE) by (nonlinear_arith)
                    requires
                        bits == a * ONE / (b as int),
                        a <= 100 * b,
                        b > 0,
                        ONE > 0,
                ;
            }
            r.push(
                DiskInfo {
                    mount_point: d.mount_point.clone(),
                    total_bytes: d.total_bytes,
                    available_bytes: d.available_bytes,
                    used_pct: Fixed { bits: bits as u64 },
                },
            );
        }
        i = i + 1;
    }
    assert(raw@.take(i as int) == raw@);
    r
}

/// What a snapshot holds besides the processes.
pub struct Reading {
    pub ts_unix: u64,
    pub load_avg: LoadAvg,
    pub memory: MemoryInfo,
    pub disks: Vec<DiskInfo>,
    pub battery: Option<BatteryInfo>,
    pub connections: Option<ConnectionCounts>,
}

/// The shares of a processor that the processes use.
pub open spec fn cpu_keys(procs: Seq<ProcInfo>) -> Seq<u64> {
    procs.map_values(|p: ProcInfo| p.cpu_pct.bits)
}

/// The memory that the processes use.
pub open spec fn mem_keys(procs: Seq<ProcInfo>) -> Seq<u64> {
    procs.map_values(|p: ProcInfo| p.mem_bytes)
}

/// The processes, the busiest first.
pub open spec fn by_cpu(procs: Seq<ProcInfo>) -> Seq<ProcInfo> {
    ranked(procs, cpu_keys(procs))
}

/// The processes, the largest first; of two equally large, the busier.
pub open spec fn by_mem(procs: Seq<ProcInfo>) -> Seq<ProcInfo> {
    ranked(by_cpu(procs), mem_keys(by_cpu(procs)))
}

fn sort_procs(procs: Vec<ProcInfo>, keys: Vec<u64>) -> (r: Vec<ProcInfo>)
    requires
        keys@.len() == procs@.len(),
    ensures
        r@ == ranked(procs@, keys@),
        r@.to_multiset() == procs@.to_multiset(),
        exists|order: Seq<usize>| #[trigger]
            descending(keys@, order) && r@ == picks(procs@, order),
{
    let order = descending_order(&keys);
    let mut r: Vec<ProcInfo> = Vec::new();
    let mut i: usize = 0;
    while i < order.len()
        invariant
            i <= order@.len(),
            keys@.len() == procs@.len(),
            descending(keys@, order@),
            r@ == picks(procs@, order@).take(i as int),
        decreases order@.len() - i,
    {
        r.push(procs[order[i]].clone());
        assert(picks(procs@, order@).take(i + 1) == picks(procs@, order@).take(i as int).push(
            procs@[order@[i as int] as int],
        ));
        i = i + 1;
    }
    proof {
        assert(picks(procs@, order@).take(i as int) == picks(procs@, order@));
        crate::order::lemma_ranked(procs@, keys@, order@);
    }
    r
}

fn first_procs(procs: &Vec<ProcInfo>, n: usize) -> (r: Vec<ProcInfo>)
    ensures
        r@ == first(procs@, n as nat),
{
    let mut r: Vec<ProcInfo> = Vec::new();
    let mut i: usize = 0;
    while i < procs.len() && i < n
        invariant
            i <= procs@.len(),
            i <= n,
            r@ == procs@.take(i as int),
        decreases procs@.len() - i,
    {
        r.push(procs[i].clone());
        assert(procs@.take(i + 1) == procs@.take(i as int).push(procs@[i as int]));
        i = i + 1;
    }
    assert(r@ == first(procs@, n as nat));
    r
}

/// The processes, the busiest first.
pub fn busiest_first(procs: Vec<ProcInfo>) -> (r: Vec<ProcInfo>)
    ensures
        r@ == by_cpu(procs@),
        r@.to_multiset() == procs@.to_multiset(),
        forall|i: int, j: int|
            #![trigger r@[i], r@[j]]
            0 <= i < j < r@.len() ==> r@[i].cpu_pct.bits >= r@[j].cpu_pct.bits,
{
    let mut cpu: Vec<u64> = Vec::new();
    let mut i: usize = 0;
    while i < procs.len()
        invariant
            i <= procs@.len(),
            cpu@ == cpu_keys(procs@).take(i as int),
        decreases procs@.len() - i,
    {
        cpu.push(procs[i].cpu_pct.bits);
        assert(cpu@ == cpu_keys(procs@).take(i + 1));
        i = i + 1;
    }
    assert(cpu@ == cpu_keys(procs@));
    let ghost all = procs@;
    let ghost keys = cpu@;
    let r = sort_procs(procs, cpu);
    proof {
        let order = choose|order: Seq<usize>| #[trigger]
            descending(keys, order) && r@ == picks(all, order);
        assert forall|i: int, j: int|
            #![trigger r@[i], r@[j]]
            0 <= i < j < r@.len() implies r@[i].cpu_pct.bits >= r@[j].cpu_pct.bits by {
            assert(precedes(keys, order[i], order[j]));
            assert(r@[i] == all[order[i] as int] && r@[j] == all[order[j] as int]);
        }
    }
    r
}

proof fn lemma_kept(a: Seq<ProcInfo>, b: Seq<ProcInfo>, k: int) -> (at: int)
    requires
        a.to_multiset() == b.to_multiset(),
        0 <= k < a.len(),
    ensures
        0 <= at < b.len(),
        b[at] == a[k],
{
    broadcast use vstd::seq_lib::group_to_multiset_ensures;

    assert(a.contains(a[k]));
    assert(a.to_multiset().count(a[k]) > 0);
    assert(b.contains(a[k]));
    choose|at: int| 0 <= at < b.len() && b[at] == a[k]
}

proof fn lemma_same_len(a: Seq<ProcInfo>, b: Seq<ProcInfo>)
    requires
        a.to_multiset() == b.to_multiset(),
    ensures
        a.len() == b.len(),
{
    broadcast use vstd::seq_lib::group_to_multiset_ensures;

    assert(a.len() == a.to_multiset().len() && b.len() == b.to_multiset().len());
}

/// Puts a snapshot together: the busiest processes, the largest ones, and
/// the largest groups, at most `top_n` of each. The groups are made of all
/// processes: one that never ranks by itself can be part of a group that does.
pub fn take_snapshot(procs: Vec<ProcInfo>, reading: Reading, top_n: usize) -> (r: Snapshot)
    requires
        groups_fit(procs@),
    ensures
        r.ts_unix == reading.ts_unix,
        r.load_avg == reading.load_avg,
        r.memory == reading.memory,
        r.disks == reading.disks,
        r.battery == reading.battery,
        r.connections == reading.connections,
        r.top_cpu@ == first(by_cpu(procs@), top_n as nat),
        r.top_mem@ == first(by_mem(procs@), top_n as nat),
        exists|groups: Seq<ProcGroup>| #[trigger]
            grouped(groups, by_mem(procs@)) && r.top_mem_groups@ == first(groups, top_n as nat),
        r.top_cpu@.len() == if procs@.len() < top_n {
            procs@.len()
        } else {
            top_n as nat
        },
        r.top_mem@.len() == r.top_cpu@.len(),
        forall|i: int, j: int|
            #![trigger r.top_cpu@[i], r.top_cpu@[j]]
            0 <= i < j < r.top_cpu@.len() ==> r.top_cpu@[i].cpu_pct.bits
                >= r.top_cpu@[j].cpu_pct.bits,
        forall|i: int, j: int|
            #![trigger r.top_mem@[i], r.top_mem@[j]]
            0 <= i < j < r.top_mem@.len() ==> r.top_mem@[i].mem_bytes >= r.top_mem@[j].mem_bytes,
        forall|k: int|
            0 <= k < procs@.len() ==> r.top_cpu@.contains(#[trigger] procs@[k]) || forall|i: int|
                0 <= i < r.top_cpu@.len() ==> (#[trigger] r.top_cpu@[i]).cpu_pct.bits
                    >= procs@[k].cpu_pct.bits,
        forall|k: int|
            0 <= k < procs@.len() ==> r.top_mem@.contains(#[trigger] procs@[k]) || forall|i: int|
                0 <= i < r.top_mem@.len() ==> (#[trigger] r.top_mem@[i]).mem_bytes
                    >= procs@[k].mem_bytes,
{
    let ghost all = procs@;
    let busiest = busiest_first(procs);
    let mut mem: Vec<u64> = Vec::new();
    let mut i: usize = 0;
    while i < busiest.len()
        invariant
            i <= busiest@.len(),
            mem@ == mem_keys(busiest@).take(i as int),
        decreases busiest@.len() - i,
    {
        mem.push(busiest[i].mem_bytes);
        assert(mem@ == mem_keys(busiest@).take(i + 1));
        i = i + 1;
    }
    assert(mem@ == mem_keys(busiest@));
    let top_cpu = first_procs(&busiest, top_n);
    let ghost by_share = busiest@;
    let ghost keys = mem@;
    let largest = sort_procs(busiest, mem);
    let top_mem = first_procs(&largest, top_n);
    proof {
        lemma_groups_fit_permuted(all, largest@);
        let order = choose|order: Seq<usize>| #[trigger]
            descending(keys, order) && largest@ == picks(by_share, order);
        assert forall|i: int, j: int|
            #![trigger largest@[i], largest@[j]]
            0 <= i < j < largest@.len() implies largest@[i].mem_bytes >= largest@[j].mem_bytes by {
            assert(precedes(keys, order[i], order[j]));
            assert(largest@[i] == by_share[order[i] as int] && largest@[j]
                == by_share[order[j] as int]);
        }
        assert forall|k: int| 0 <= k < all.len() implies top_cpu@.contains(#[trigger] all[k])
            || forall|i: int|
            0 <= i < top_cpu@.len() ==> (#[trigger] top_cpu@[i]).cpu_pct.bits
                >= all[k].cpu_pct.bits by {
            let at = lemma_kept(all, by_share, k);
            if at < top_cpu@.len() {
                assert(top_cpu@[at] == all[k]);
            } else {
                assert forall|i: int| 0 <= i < top_cpu@.len() implies (
                #[trigger] top_cpu@[i]).cpu_pct.bits >= all[k].cpu_pct.bits by {
                    assert(by_share[i].cpu_pct.bits >= by_share[at].cpu_pct.bits);
                }
            }
        }
        assert forall|k: int| 0 <= k < all.len() implies top_mem@.contains(#[trigger] all[k])
            || forall|i: int|
            0 <= i < top_mem@.len() ==> (#[trigger] top_mem@[i]).mem_bytes >= all[k].mem_bytes by {
            let at = lemma_kept(all, largest@, k);
            if at < top_mem@.len() {
                assert(top_mem@[at] == all[k]);
            } else {
                assert forall|i: int| 0 <= i < top_mem@.len() implies (
                #[trigger] top_mem@[i]).mem_bytes >= all[k].mem_bytes by {
                    assert(largest@[i].mem_bytes >= largest@[at].mem_bytes);
                }
            }
        }
        lemma_same_len(all, by_share);
        lemma_same_len(all, largest@);
    }
    let mut groups = group_by_name(&largest);
    let ghost all_groups = groups@;
    groups.truncate(top_n);
    assert(grouped(all_groups, by_mem(all)));
    assert(groups@ == first(all_groups, top_n as nat));
    Snapshot {
        ts_unix: reading.ts_unix,
        load_avg: reading.load_avg,
        memory: reading.memory,
        disks: reading.disks,
        battery: reading.battery,
        connections: reading.connections,
        top_cpu,
        top_mem,
        top_mem_groups: groups,
    }
}

} // verus!
