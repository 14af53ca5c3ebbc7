//! What the dashboard does about keys, time and alerts.
use crate::alerts::{Alert, AlertView};
use crate::battery::NANOS_PER_SEC;
use crate::snapshot::{BatteryInfo, ProcInfo};
use crate::text::{chars_of, text_of, trim, trimmed};
use crate::ui::{logged, why_question, why_text, AppState, ALERT_CHECK_INTERVAL};
use crate::watch::MAX_DURATION;
use vstd::prelude::*;
use vstd::string::StringExecFns;

verus! {

/// A key.
#[derive(Debug, Clone, Copy, PartialEq, Eq, Structural)]
pub enum Key {
    Enter,
    Esc,
    Backspace,
    Char(char),
    Other,
}

/// What to do about a key.
pub enum Command {
    /// Go on.
    Continue,
    Quit,
    /// Ask the agent the question.
    Ask(String),
    /// Ask the agent about the busiest process.
    AskWhy,
}

/// What a key does while a question is being typed.
pub open spec fn typing(before: AppState, key: Key, after: AppState, r: Command) -> bool {
    let question = trim(before.input_buffer@);
    match key {
        Key::Enter => {
            &&& !after.input_mode
            &&& after.input_buffer@.len() == 0
            &&& if question.len() > 0 {
                after.thinking && after.answer is None && (r matches Command::Ask(q) && q@
                    == question)
            } else {
                after.thinking == before.thinking && after.answer == before.answer && r is Continue
            }
        },
        Key::Esc => {
            &&& !after.input_mode
            &&& after.input_buffer@.len() == 0
            &&& after.thinking == before.thinking
            &&& after.answer == before.answer
            &&& r is Continue
        },
        Key::Backspace => {
            &&& after.input_mode
            &&& after.input_buffer@ == if before.input_buffer@.len() > 0 {
                before.input_buffer@.drop_last()
            } else {
                before.input_buffer@
            }
            &&& after.thinking == before.thinking
            &&& after.answer == before.answer
            &&& r is Continue
        },
        Key::Char(c) => {
            &&& after.input_mode
            &&& after.input_buffer@ == before.input_buffer@.push(c)
            &&& after.thinking == before.thinking
            &&& after.answer == before.answer
            &&& r is Continue
        },
        Key::Other => after == before && r is Continue,
    }
}

/// What a key does while an answer is shown.
pub open spec fn reading(before: AppState, key: Key, after: AppState, r: Command) -> bool {
    if key == Key::Esc || key == Key::Enter || key == Key::Char('a') {
        &&& after.answer is None
        &&& after.input_mode == before.input_mode
        &&& after.input_buffer == before.input_buffer
        &&& after.thinking == before.thinking
        &&& r is Continue
    } else {
        &&& after == before
        &&& if key == Key::Char('q') {
            r is Quit
        } else {
            r is Continue
        }
    }
}

/// What a key does otherwise.
pub open spec fn watching(before: AppState, key: Key, after: AppState, r: Command) -> bool {
    if key == Key::Char('a') {
        &&& after.input_mode
        &&& after.input_buffer@.len() == 0
        &&& after.thinking == before.thinking
        &&& after.answer == before.answer
        &&& r is Continue
    } else {
        &&& after == before
        &&& if key == Key::Char('q') || key == Key::Esc {
            r is Quit
        } else if key == Key::Char('w') {
            r is AskWhy
        } else {
            r is Continue
        }
    }
}

/// What no key touches.
pub open spec fn same_elsewhere(before: AppState, after: AppState) -> bool {
    &&& after.top_n == before.top_n
    &&& after.alert_log == before.alert_log
    &&& after.battery_pct == before.battery_pct
    &&& after.battery_charging == before.battery_charging
    &&& after.battery_eta_secs == before.battery_eta_secs
}

/// Takes a key in, and says what to do about it.
pub fn on_key(app: &mut AppState, key: Key) -> (r: Command)
    ensures
        same_elsewhere(*old(app), *final(app)),
        if old(app).input_mode {
            typing(*old(app), key, *final(app), r)
        } else if old(app).answer is Some {
            reading(*old(app), key, *final(app), r)
        } else {
            watching(*old(app), key, *final(app), r)
        },
{
    if app.input_mode {
        match key {
            Key::Enter => {
                let question = trimmed(app.input_buffer.as_str());
                app.input_mode = false;
                app.input_buffer = String::new();
                if question.as_str().is_empty() {
                    Command::Continue
                } else {
                    app.thinking = true;
                    app.answer = None;
                    Command::Ask(question)
                }
            },
            Key::Esc => {
                app.input_mode = false;
                app.input_buffer = String::new();
                Command::Continue
            },
            Key::Backspace => {
                let cs = chars_of(app.input_buffer.as_str());
                if cs.len() > 0 {
                    app.input_buffer = text_of(cs.as_slice(), 0, cs.len() - 1);
                    assert(cs@.subrange(0, cs@.len() - 1) == cs@.drop_last());
                }
                Command::Continue
            },
            Key::Char(c) => {
                app.input_buffer.push(c);
                Command::Continue
            },
            Key::Other => Command::Continue,
        }
    } else if app.answer.is_some() {
        match key {
            Key::Esc | Key::Enter | Key::Char('a') => {
                app.answer = None;
                Command::Continue
            },
            Key::Char('q') => Command::Quit,
            _ => Command::Continue,
        }
    } else {
        match key {
            Key::Char('q') | Key::Esc => Command::Quit,
            Key::Char('a') => {
                app.input_mode = true;
                app.input_buffer = String::new();
                Command::Continue
            },
            Key::Char('w') => Command::AskWhy,
            _ => Command::Continue,
        }
    }
}

/// The `i`th process is the busiest: the last of them where there are
/// several.
pub open spec fn is_busiest(procs: Seq<ProcInfo>, i: int) -> bool {
    &&& 0 <= i < procs.len()
    &&& forall|j: int|
        0 <= j < procs.len() ==> (#[trigger] procs[j]).cpu_pct.bits <= procs[i].cpu_pct.bits
    &&& forall|j: int|
        i < j < procs.len() ==> (#[trigger] procs[j]).cpu_pct.bits < procs[i].cpu_pct.bits
}

/// Where the busiest process is, if there is any.
pub fn busiest(procs: &Vec<ProcInfo>) -> (r: Option<usize>)
    ensures
        match r {
            Some(i) => is_busiest(procs@, i as int),
            None => procs@.len() == 0,
        },
{
    if procs.len() == 0 {
        return None;
    }
    let mut at: usize = 0;
    let mut i: usize = 1;
    while i < procs.len()
        invariant
            at < i <= procs@.len(),
            forall|j: int|
                0 <= j < i ==> (#[trigger] procs@[j]).cpu_pct.bits <= procs@[at as int].cpu_pct.bits,
            forall|j: int|
                at < j < i ==> (#[trigger] procs@[j]).cpu_pct.bits < procs@[at as int].cpu_pct.bits,
        decreases procs@.len() - i,
    {
        if procs[i].cpu_pct.bits >= procs[at].cpu_pct.bits {
            at = i;
        }
        i = i + 1;
    }
    Some(at)
}

/// The question about the busiest process, if there is any: the agent is
/// being asked from then on.
pub fn ask_why(app: &mut AppState, procs: &Vec<ProcInfo>) -> (r: Option<String>)
    ensures
        same_elsewhere(*old(app), *final(app)),
        final(app).input_mode == old(app).input_mode,
        final(app).input_buffer == old(app).input_buffer,
        if procs@.len() > 0 {
            &&& final(app).thinking
            &&& final(app).answer is None
            &&& exists|i: int| #[trigger]
                is_busiest(procs@, i) && r is Some && r->Some_0@ == why_text(
                    procs@[i].name@,
                    procs@[i].pid,
                    procs@[i].cpu_pct,
                    procs@[i].mem_bytes,
                )
        } else {
            *final(app) == *old(app) && r is None
        },
{
    match busiest(procs) {
        Some(i) => {
            app.thinking = true;
            app.answer = None;
            let p = &procs[i];
            let q = why_question(p.name.as_str(), p.pid, p.cpu_pct, p.mem_bytes);
            assert(is_busiest(procs@, i as int));
            Some(q)
        },
        None => None,
    }
}

/// Takes the agent's answer in.
pub fn on_answer(app: &mut AppState, answer: Result<String, String>)
    ensures
        same_elsewhere(*old(app), *final(app)),
        final(app).input_mode == old(app).input_mode,
        final(app).input_buffer == old(app).input_buffer,
        !final(app).thinking,
        final(app).answer == Some(answer),
{
    app.answer = Some(answer);
    app.thinking = false;
}

/// The line that the log gets about an alert.
pub open spec fn log_text(alert: AlertView) -> Seq<char> {
    "["@ + alert.key + "] "@ + alert.message
}

/// The line that the log gets about an alert.
pub fn log_line(alert: &Alert) -> (r: String)
    ensures
        r@ == log_text(alert@),
{
    let mut r = "[".to_string();
    r.append(alert.key.as_str());
    r.append("] ");
    r.append(alert.message.as_str());
    r
}

/// Takes an alert in: it is logged, whatever the reaction to it is.
pub fn on_alert(app: &mut AppState, alert: &Alert)
    ensures
        only_log_changed(*old(app), *final(app)),
        exists|line: String|
            line@ == log_text(alert@) && final(app).alert_log@ == #[trigger] logged(
                old(app).alert_log@,
                line,
            ),
{
    let line = log_line(alert);
    app.push_alert(line);
}

/// Takes in that a stub could not be written.
pub fn on_stub_failure(app: &mut AppState, error: &str)
    ensures
        only_log_changed(*old(app), *final(app)),
        exists|line: String|
            line@ == "[vigil] failed to write incident stub: "@ + error@ && final(app).alert_log@
                == #[trigger] logged(old(app).alert_log@, line),
{
    let mut line = "[vigil] failed to write incident stub: ".to_string();
    line.append(error);
    app.push_alert(line);
}

/// What an alert leaves as it was: everything but the log.
pub open spec fn only_log_changed(before: AppState, after: AppState) -> bool {
    &&& after.top_n == before.top_n
    &&& after.input_mode == before.input_mode
    &&& after.input_buffer == before.input_buffer
    &&& after.thinking == before.thinking
    &&& after.answer == before.answer
    &&& after.battery_pct == before.battery_pct
    &&& after.battery_charging == before.battery_charging
    &&& after.battery_eta_secs == before.battery_eta_secs
}

/// Takes in what a sample says about the battery, and the time that it is
/// expected to last, in nanoseconds.
pub fn on_battery(app: &mut AppState, battery: &Option<BatteryInfo>, eta: Option<u128>)
    requires
        eta is Some ==> eta->Some_0 <= MAX_DURATION,
    ensures
        final(app).top_n == old(app).top_n,
        final(app).input_mode == old(app).input_mode,
        final(app).input_buffer == old(app).input_buffer,
        final(app).thinking == old(app).thinking,
        final(app).answer == old(app).answer,
        final(app).alert_log == old(app).alert_log,
        match *battery {
            Some(b) => final(app).battery_pct == b.percentage && final(app).battery_charging
                == b.charging,
            None => final(app).battery_pct is None && final(app).battery_charging is None,
        },
        match eta {
            Some(d) => final(app).battery_eta_secs == Some((d as int / NANOS_PER_SEC as int) as u64),
            None => final(app).battery_eta_secs is None,
        },
{
    match battery {
        Some(b) => {
            app.battery_pct = b.percentage;
            app.battery_charging = b.charging;
        },
        None => {
            app.battery_pct = None;
            app.battery_charging = None;
        },
    }
    match eta {
        Some(d) => {
            app.battery_eta_secs = Some((d / NANOS_PER_SEC) as u64);
        },
        None => {
            app.battery_eta_secs = None;
        },
    }
}

/// Whether it is time for the next sample. Durations are in nanoseconds.
pub fn is_due(elapsed: u128, interval: u128) -> (r: bool)
    ensures
        r == (elapsed >= interval),
{
    elapsed >= interval
}

/// Whether it is time to look for alerts.
pub fn is_due_for_alerts(notify: bool, elapsed: u128) -> (r: bool)
    ensures
        r == (notify && elapsed >= ALERT_CHECK_INTERVAL),
{
    notify && is_due(elapsed, ALERT_CHECK_INTERVAL)
}

/// How long to wait for a key: until the next sample, a quarter of a second
/// at most, and a twentieth where that is overdue.
pub fn poll_timeout(interval: u128, elapsed: u128) -> (r: u128)
    ensures
        r == if elapsed > interval {
            50000000
        } else if interval - elapsed > 250000000 {
            250000000
        } else {
            interval - elapsed
        },
{
    if elapsed > interval {
        50000000
    } else if interval - elapsed > 250000000 {
        250000000
    } else {
        interval - elapsed
    }
}

/// Nothing that is typed quits the dashboard or asks anything: only Enter
/// sends a question, and only one that is not blank.
pub proof fn law_typing_is_safe(before: AppState, key: Key, after: AppState, r: Command)
    requires
        before.input_mode,
        typing(before, key, after, r),
    ensures
        !(r is Quit),
        !(r is AskWhy),
        r is Ask <==> key == Key::Enter && trim(before.input_buffer@).len() > 0,
{
}

/// While a question is typed, every character is added to it, the last one can
/// be taken back, Enter asks what is there unless that is blank, and Esc drops
/// it; either ends the typing.
pub proof fn law_typing(before: AppState, key: Key, after: AppState, r: Command)
    requires
        typing(before, key, after, r),
    ensures
        key matches Key::Char(c) ==> after.input_buffer@ == before.input_buffer@.push(c)
            && after.input_mode && r is Continue,
        key is Backspace && before.input_buffer@.len() > 0 ==> after.input_buffer@
            == before.input_buffer@.take(before.input_buffer@.len() - 1) && after.input_mode,
        key is Enter && trim(before.input_buffer@).len() > 0 ==> (r matches Command::Ask(q) && q@
            == trim(before.input_buffer@)) && after.thinking && after.answer is None,
        key is Enter || key is Esc ==> !after.input_mode && after.input_buffer@.len() == 0,
        key is Esc ==> r is Continue && after.thinking == before.thinking && after.answer
            == before.answer,
        key is Other ==> after == before && r is Continue,
{
    if key is Backspace && before.input_buffer@.len() > 0 {
        assert(before.input_buffer@.drop_last() =~= before.input_buffer@.take(
            before.input_buffer@.len() - 1,
        ));
    }
}

/// While an answer is read, Esc, Enter and `a` close it, `q` quits, and every
/// other key leaves everything as it is.
pub proof fn law_reading(before: AppState, key: Key, after: AppState, r: Command)
    requires
        reading(before, key, after, r),
    ensures
        key is Esc || key is Enter || key == Key::Char('a') ==> after.answer is None && r
            is Continue && after.input_mode == before.input_mode && after.thinking
            == before.thinking,
        !(key is Esc || key is Enter || key == Key::Char('a')) ==> after == before,
        r is Quit <==> key == Key::Char('q'),
        r is Quit || r is Continue,
{
}

/// Otherwise `a` starts a question, `w` asks about the busiest process, `q` and
/// Esc quit, and every other key leaves everything as it is.
pub proof fn law_watching(before: AppState, key: Key, after: AppState, r: Command)
    requires
        watching(before, key, after, r),
    ensures
        key == Key::Char('a') ==> after.input_mode && after.input_buffer@.len() == 0 && r
            is Continue && after.thinking == before.thinking && after.answer == before.answer,
        key != Key::Char('a') ==> after == before,
        r is Quit <==> key == Key::Char('q') || key is Esc,
        r is AskWhy <==> key == Key::Char('w'),
        !(r is Ask),
{
}

/// What is asked about is the process that no other is busier than.
pub proof fn law_busiest(procs: Seq<ProcInfo>, i: int, j: int)
    requires
        is_busiest(procs, i),
        0 <= j < procs.len(),
    ensures
        procs[j].cpu_pct.bits <= procs[i].cpu_pct.bits,
        procs[j].cpu_pct.bits == procs[i].cpu_pct.bits ==> j <= i,
{
    assert(procs[j].cpu_pct.bits <= procs[i].cpu_pct.bits);
}

/// An alert is logged by its key and its message, and a key stroke or an alert
/// changes nothing that it is not about.
pub proof fn law_log_line(alert: AlertView, before: AppState, after: AppState)
    ensures
        log_text(alert) == "["@ + alert.key + "] "@ + alert.message,
        same_elsewhere(before, after) ==> after.alert_log == before.alert_log && after.top_n
            == before.top_n && after.battery_pct == before.battery_pct && after.battery_charging
            == before.battery_charging && after.battery_eta_secs == before.battery_eta_secs,
        only_log_changed(before, after) ==> after.input_mode == before.input_mode
            && after.input_buffer == before.input_buffer && after.thinking == before.thinking
            && after.answer == before.answer && after.top_n == before.top_n && after.battery_pct
            == before.battery_pct && after.battery_charging == before.battery_charging
            && after.battery_eta_secs == before.battery_eta_secs,
{
}

} // verus!
