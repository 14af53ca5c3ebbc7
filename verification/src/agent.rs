//! The wording of questions to the agent, and the command lines that reach
//! it. The agent itself is another program.
use crate::alerts::{optional_str, Alert, AlertView};
use crate::number::{decimal, push_decimal};
use crate::paths::{join_path, path_join};
use crate::text::{same, starts_with, texts, trim, trimmed};
use crate::alert_laws::{lemma_mentions_within, mentions};
use crate::process_tree::lemma_prefix;
use crate::text_laws::spelled_at;
use vstd::prelude::*;
use vstd::string::StringExecFns;

verus! {

/// Only these alerts are written to the journal, which keeps it bounded.
pub open spec fn journal_worthy(key: Seq<char>) -> bool {
    ||| key == "high_load"@
    ||| "cpu_hog:"@.is_prefix_of(key)
    ||| key == "battery_low"@
    ||| "high_process_count:"@.is_prefix_of(key)
}

/// Whether an alert with that key is written to the journal.
pub fn is_journal_worthy(alert_key: &str) -> (r: bool)
    ensures
        r == journal_worthy(alert_key@),
{
    same(alert_key, "high_load") || starts_with(alert_key, "cpu_hog:") || same(
        alert_key,
        "battery_low",
    ) || starts_with(alert_key, "high_process_count:")
}

/// A mention of what else fired.
pub open spec fn context_note(recent_context: Option<Seq<char>>) -> Seq<char> {
    match recent_context {
        Some(c) => " Other rules that also fired recently (possibly the same root cause): "@ + c
            + "."@,
        None => Seq::empty(),
    }
}

/// A pointer to the recorded history.
pub open spec fn history_note(watch_log_path: Option<Seq<char>>) -> Seq<char> {
    match watch_log_path {
        Some(path) => " Don't just describe this one snapshot — check recent history in "@ + path
            + " (JSON Lines, one snapshot per line) to say whether the flagged process/metric has been growing over time or is a one-off spike, since that changes what's actually worth doing about it."@,
        None => Seq::empty(),
    }
}

/// The command line of the flagged process, and a warning that its pid may
/// be another's by now. A process sampled between fork and exec has an empty
/// one: nothing to quote.
pub open spec fn command_note(command: Option<Seq<char>>) -> Seq<char> {
    match command {
        Some(cmd) if cmd.len() > 0 =>
            " The flagged process's command line at the moment this fired was: `"@ + cmd
            + "`. Note this pid may already refer to a different process by the time you check it (pids get reused) — if `ps -p <pid>` shows something else now, trust the command line above for what was actually running, not whatever the pid currently points to."@,
        _ => Seq::empty(),
    }
}

/// The question for the diagnosis of an alert.
pub open spec fn diagnosis_question(
    alert_message: Seq<char>,
    recent_context: Option<Seq<char>>,
    watch_log_path: Option<Seq<char>>,
    command: Option<Seq<char>>,
) -> Seq<char> {
    "A monitoring rule just fired: \""@ + alert_message + "\"."@ + context_note(recent_context)
        + history_note(watch_log_path) + command_note(command)
        + " Investigate the likely cause — check beyond the snapshot if useful (e.g. logs, `sample` a hot pid, thermal state) — and suggest what to check or do next."@
}

/// Builds the question for the diagnosis of an alert. `watch_log_path` is
/// `None` where there is no recorded history to point at, `command` the
/// command line of the flagged process when the alert fired.
pub fn build_diagnosis_question(
    alert_message: &str,
    recent_context: Option<&str>,
    watch_log_path: Option<&str>,
    command: Option<&str>,
) -> (r: String)
    ensures
        r@ == diagnosis_question(
            alert_message@,
            optional_str(recent_context),
            optional_str(watch_log_path),
            optional_str(command),
        ),
{
    let mut context: String = String::new();
    if let Some(c) = recent_context {
        context = " Other rules that also fired recently (possibly the same root cause): ".to_string();
        context.append(c);
        context.append(".");
    }
    let mut history: String = String::new();
    if let Some(path) = watch_log_path {
        history = " Don't just describe this one snapshot — check recent history in ".to_string();
        history.append(path);
        history.append(
            " (JSON Lines, one snapshot per line) to say whether the flagged process/metric has been growing over time or is a one-off spike, since that changes what's actually worth doing about it.",
        );
    }
    let mut running: String = String::new();
    if let Some(cmd) = command {
        if !cmd.is_empty() {
            running = " The flagged process's command line at the moment this fired was: `".to_string();
            running.append(cmd);
            running.append(
                "`. Note this pid may already refer to a different process by the time you check it (pids get reused) — if `ps -p <pid>` shows something else now, trust the command line above for what was actually running, not whatever the pid currently points to.",
            );
        }
    }
    let mut r = "A monitoring rule just fired: \"".to_string();
    r.append(alert_message);
    r.append("\".");
    r.append(context.as_str());
    r.append(history.as_str());
    r.append(running.as_str());
    r.append(
        " Investigate the likely cause — check beyond the snapshot if useful (e.g. logs, `sample` a hot pid, thermal state) — and suggest what to check or do next.",
    );
    r
}

/// The command that investigates an alert.
pub open spec fn investigate_hint(key: Seq<char>, watch_log_path: Option<Seq<char>>) -> Seq<char> {
    match watch_log_path {
        Some(p) => "`vigil investigate "@ + key + " --watch-log "@ + p + "`"@,
        None => "`vigil investigate "@ + key + "`"@,
    }
}

/// The alert, with the command that investigates it behind its message.
pub fn augment_with_investigate_hint(alert: &Alert, watch_log_path: Option<&str>) -> (r: Alert)
    ensures
        r@ == (AlertView {
            message: alert@.message + " — investigate? "@ + investigate_hint(
                alert@.key,
                optional_str(watch_log_path),
            ),
            ..alert@
        }),
{
    let mut hint = "`vigil investigate ".to_string();
    hint.append(alert.key.as_str());
    if let Some(p) = watch_log_path {
        hint.append(" --watch-log ");
        hint.append(p);
    }
    hint.append("`");
    let mut message = alert.message.clone();
    message.append(" — investigate? ");
    message.append(hint.as_str());
    let target = match &alert.target {
        Some(t) => Some(t.clone()),
        None => None,
    };
    let command = match &alert.command {
        Some(c) => Some(c.clone()),
        None => None,
    };
    Alert { key: alert.key.clone(), title: alert.title.clone(), message, target, command }
}

/// The command line that executes an approved plan. `plan_json` holds the
/// approved steps only: the rejected ones never reach the agent.
pub fn build_execute_args(plan_json: &str, agent_dir: &str) -> (r: Vec<String>)
    ensures
        texts(r@) == seq![
            "uv"@,
            "run"@,
            "--project"@,
            agent_dir@,
            "vigil-agent"@,
            "execute"@,
            "--plan-json"@,
            plan_json@,
        ],
{
    vec![
        "uv".to_string(),
        "run".to_string(),
        "--project".to_string(),
        agent_dir.to_string(),
        "vigil-agent".to_string(),
        "execute".to_string(),
        "--plan-json".to_string(),
        plan_json.to_string(),
    ]
}

/// The name of the file that hands a snapshot to the agent.
pub open spec fn snapshot_file_name(pid: nat, nanos: nat) -> Seq<char> {
    "vigil-snapshot-"@ + decimal(pid) + "-"@ + decimal(nanos) + ".json"@
}

/// Where to put the snapshot for the agent: in `dir`, under a name made of
/// the process id and the time, which keeps overlapping calls apart.
pub fn temp_snapshot_path(dir: &str, pid: u32, nanos: u128) -> (r: String)
    ensures
        r@ == path_join(dir@, snapshot_file_name(pid as nat, nanos as nat)),
{
    let mut name = "vigil-snapshot-".to_string();
    push_decimal(&mut name, pid as u128);
    name.append("-");
    push_decimal(&mut name, nanos);
    name.append(".json");
    join_path(dir, name.as_str())
}

/// The command line that asks the agent a question about a snapshot.
pub fn build_args(question: &str, snapshot_path: &str, agent_dir: &str) -> (r: Vec<String>)
    ensures
        texts(r@) == seq![
            "uv"@,
            "run"@,
            "--project"@,
            agent_dir@,
            "vigil-agent"@,
            "ask"@,
            "--snapshot"@,
            snapshot_path@,
            "--question"@,
            question@,
        ],
{
    vec![
        "uv".to_string(),
        "run".to_string(),
        "--project".to_string(),
        agent_dir.to_string(),
        "vigil-agent".to_string(),
        "ask".to_string(),
        "--snapshot".to_string(),
        snapshot_path.to_string(),
        "--question".to_string(),
        question.to_string(),
    ]
}

/// What a finished run of the agent comes to: what it printed, or what it
/// complained about.
pub fn interpret_output(success: bool, stdout: &str, stderr: &str) -> (r: Result<String, String>)
    ensures
        match r {
            Ok(answer) => success && answer@ == trim(stdout@),
            Err(e) => !success && e@ == if trim(stderr@).len() == 0 {
                "vigil-agent exited with an error and no message"@
            } else {
                trim(stderr@)
            },
        },
{
    if success {
        Ok(trimmed(stdout))
    } else {
        let message = trimmed(stderr);
        if message.as_str().is_empty() {
            Err("vigil-agent exited with an error and no message".to_string())
        } else {
            Err(message)
        }
    }
}

/// Two calls of one process at different times use different files.
pub proof fn law_snapshot_files_differ(dir: Seq<char>, pid: nat, a: nat, b: nat)
    requires
        a != b,
    ensures
        path_join(dir, snapshot_file_name(pid, a)) != path_join(dir, snapshot_file_name(pid, b)),
{
    let head = "vigil-snapshot-"@ + decimal(pid) + "-"@;
    let x = snapshot_file_name(pid, a);
    let y = snapshot_file_name(pid, b);
    crate::number::law_decimal_reads_back(a);
    crate::number::law_decimal_reads_back(b);
    let px = path_join(dir, x);
    let py = path_join(dir, y);
    let skip = px.len() - x.len();
    assert(px.skip(skip) == x);
    assert(py.skip(skip) == y);
    if px == py {
        assert(x == y);
        let tail = ".json"@.len();
        assert(x.subrange(head.len() as int, x.len() - tail) == decimal(a));
        assert(y.subrange(head.len() as int, y.len() - tail) == decimal(b));
    }
}

/// The question holds the alert's message and, where they are known, what else
/// fired, where the history is and what was running; and nothing in place of
/// what is not.
pub proof fn law_question(
    message: Seq<char>,
    context: Option<Seq<char>>,
    log: Option<Seq<char>>,
    command: Option<Seq<char>>,
)
    ensures
        ({
            let q = diagnosis_question(message, context, log, command);
            &&& mentions(q, "\""@ + message + "\""@)
            &&& context is Some ==> mentions(q, context->0)
            &&& log is Some ==> mentions(q, log->0)
            &&& command is Some && command->0.len() > 0 ==> mentions(q, "`"@ + command->0 + "`"@)
        }),
        context_note(None).len() == 0,
        history_note(None).len() == 0,
        command_note(None).len() == 0,
        command_note(Some(Seq::empty())).len() == 0,
{
    let q = diagnosis_question(message, context, log, command);
    let a = "A monitoring rule just fired: \""@;
    let b = "A monitoring rule just fired: "@;
    let mark = "\""@;
    let end = " Investigate the likely cause — check beyond the snapshot if useful (e.g. logs, `sample` a hot pid, thermal state) — and suggest what to check or do next."@;
    let c = context_note(context);
    let h = history_note(log);
    let d = command_note(command);
    assert(a =~= b + mark && "\"."@ =~= mark + "."@) by {
        reveal_strlit("A monitoring rule just fired: \"");
        reveal_strlit("A monitoring rule just fired: ");
        reveal_strlit("\"");
        reveal_strlit("\".");
        reveal_strlit(".");
    }
    let head = a + message + "\"."@;
    assert(head =~= b + (mark + message + mark) + "."@);
    let tail = c + h + d + end;
    assert(q =~= Seq::<char>::empty() + head + tail);
    lemma_mentions_within(Seq::<char>::empty(), head, tail, mark + message + mark);
    if let Some(x) = context {
        lemma_notes(x);
        let rest = h + d + end;
        assert(q =~= head + c + rest);
        lemma_mentions_within(head, c, rest, x);
    }
    if let Some(x) = log {
        lemma_notes(x);
        let before = head + c;
        let rest = d + end;
        assert(q =~= before + h + rest);
        lemma_mentions_within(before, h, rest, x);
    }
    if let Some(x) = command {
        if x.len() > 0 {
            lemma_notes(x);
            let before = head + c + h;
            assert(q =~= before + d + end);
            lemma_mentions_within(before, d, end, "`"@ + x + "`"@);
        }
    }
}

proof fn lemma_notes(x: Seq<char>)
    ensures
        mentions(context_note(Some(x)), x),
        mentions(history_note(Some(x)), x),
        x.len() > 0 ==> mentions(command_note(Some(x)), "`"@ + x + "`"@),
{
    lemma_command_words();
    let first = " The flagged process's command line at the moment this fired was: "@;
    let after = ". Note this pid may already refer to a different process by the time you check it (pids get reused) — if `ps -p <pid>` shows something else now, trust the command line above for what was actually running, not whatever the pid currently points to."@;
    if x.len() > 0 {
        assert(command_note(Some(x)) =~= first + ("`"@ + x + "`"@) + after);
    }
}

proof fn lemma_command_words()
    ensures
        " The flagged process's command line at the moment this fired was: `"@
            == " The flagged process's command line at the moment this fired was: "@ + "`"@,
        "`. Note this pid may already refer to a different process by the time you check it (pids get reused) — if `ps -p <pid>` shows something else now, trust the command line above for what was actually running, not whatever the pid currently points to."@
            == "`"@
            + ". Note this pid may already refer to a different process by the time you check it (pids get reused) — if `ps -p <pid>` shows something else now, trust the command line above for what was actually running, not whatever the pid currently points to."@,
{
    reveal_strlit(" The flagged process's command line at the moment this fired was: `");
    reveal_strlit(" The flagged process's command line at the moment this fired was: ");
    reveal_strlit("`");
    reveal_strlit(
        "`. Note this pid may already refer to a different process by the time you check it (pids get reused) — if `ps -p <pid>` shows something else now, trust the command line above for what was actually running, not whatever the pid currently points to.",
    );
    reveal_strlit(
        ". Note this pid may already refer to a different process by the time you check it (pids get reused) — if `ps -p <pid>` shows something else now, trust the command line above for what was actually running, not whatever the pid currently points to.",
    );
}

/// The journal takes alerts about a high load, a hog, a low battery and a
/// leaked group, whichever process or group that is, and no others.
pub proof fn law_journal_worthy(key: Seq<char>, what: Seq<char>)
    ensures
        journal_worthy(key) <==> key == "high_load"@ || key == "battery_low"@ || spelled_at(
            key,
            "cpu_hog:"@,
            0,
        ) || spelled_at(key, "high_process_count:"@, 0),
        journal_worthy("cpu_hog:"@ + what),
        journal_worthy("high_process_count:"@ + what),
        !journal_worthy("swap_pressure"@),
        !journal_worthy("low_memory"@),
        !journal_worthy("low_disk:"@ + what),
        !journal_worthy("high_connection_count"@),
        !journal_worthy("incoming_connections"@),
{
    lemma_prefix(key, "cpu_hog:"@);
    lemma_prefix(key, "high_process_count:"@);
    let a = "cpu_hog:"@ + what;
    let b = "high_process_count:"@ + what;
    assert(a.subrange(0, "cpu_hog:"@.len() as int) =~= "cpu_hog:"@);
    assert(b.subrange(0, "high_process_count:"@.len() as int) =~= "high_process_count:"@);
    reveal_strlit("high_load");
    reveal_strlit("battery_low");
    reveal_strlit("cpu_hog:");
    reveal_strlit("high_process_count:");
    reveal_strlit("swap_pressure");
    reveal_strlit("low_memory");
    reveal_strlit("low_disk:");
    reveal_strlit("high_connection_count");
    reveal_strlit("incoming_connections");
    lemma_not_worthy("swap_pressure"@);
    lemma_not_worthy("low_memory"@);
    let disk = "low_disk:"@ + what;
    assert(disk[0] == 'l');
    lemma_not_worthy(disk);
    lemma_not_worthy("high_connection_count"@);
    lemma_not_worthy("incoming_connections"@);
}

proof fn lemma_not_worthy(key: Seq<char>)
    requires
        key.len() >= 9,
        key[0] != 'c',
        key[0] != 'b',
        key[0] != 'h' || key[5] == 'c',
    ensures
        !journal_worthy(key),
{
    reveal_strlit("high_load");
    reveal_strlit("battery_low");
    reveal_strlit("cpu_hog:");
    reveal_strlit("high_process_count:");
    lemma_prefix(key, "cpu_hog:"@);
    lemma_prefix(key, "high_process_count:"@);
    if spelled_at(key, "cpu_hog:"@, 0) {
        assert(key[0int + 0] == "cpu_hog:"@[0]);
    }
    if spelled_at(key, "high_process_count:"@, 0) {
        assert(key[0int + 0] == "high_process_count:"@[0]);
        assert(key[0int + 5] == "high_process_count:"@[5]);
    }
}

} // verus!
