//! The command lines with which the desktop window runs the `vigil` program,
//! and the answers it gives to its prompts.
use crate::fix_process::{approves, lemma_answers};
use crate::paths::file_name;
use crate::text::{after_last, lines, texts};
use vstd::prelude::*;
use vstd::string::StringExecFns;

verus! {

/// The command line of `vigil investigate <alert_key> --incidents-dir <dir>`.
pub fn build_investigate_args(vigil_bin: &str, alert_key: &str, incidents_dir: &str) -> (r: Vec<
    String,
>)
    ensures
        texts(r@) == seq![
            vigil_bin@,
            "investigate"@,
            alert_key@,
            "--incidents-dir"@,
            incidents_dir@,
        ],
{
    vec![
        vigil_bin.to_string(),
        "investigate".to_string(),
        alert_key.to_string(),
        "--incidents-dir".to_string(),
        incidents_dir.to_string(),
    ]
}

/// The command line of `vigil incidents --dir <dir> --show <name> --json`.
/// The window knows a file by its full path, but `--show` looks for its
/// query in bare file names, so it is given the part behind the last slash.
pub fn build_show_json_args(vigil_bin: &str, incidents_dir: &str, path: &str) -> (r: Vec<String>)
    ensures
        texts(r@) == seq![
            vigil_bin@,
            "incidents"@,
            "--dir"@,
            incidents_dir@,
            "--show"@,
            after_last(path@, '/'),
            "--json"@,
        ],
{
    vec![
        vigil_bin.to_string(),
        "incidents".to_string(),
        "--dir".to_string(),
        incidents_dir.to_string(),
        "--show".to_string(),
        file_name(path),
        "--json".to_string(),
    ]
}

/// The command line of `vigil fix <path>`.
pub fn build_fix_args(vigil_bin: &str, path: &str) -> (r: Vec<String>)
    ensures
        texts(r@) == seq![vigil_bin@, "fix"@, path@],
{
    vec![vigil_bin.to_string(), "fix".to_string(), path.to_string()]
}

/// A command line of `vigil investigate` or `vigil fix` that says where the
/// agent is, where that is known.
pub fn with_agent_dir(args: Vec<String>, agent_dir: Option<&str>) -> (r: Vec<String>)
    ensures
        texts(r@) == match agent_dir {
            Some(dir) => texts(args@) + seq!["--agent-dir"@, dir@],
            None => texts(args@),
        },
{
    let mut r = args;
    if let Some(dir) = agent_dir {
        r.push("--agent-dir".to_string());
        r.push(dir.to_string());
    }
    r
}

/// The answers to the prompts of `vigil fix`, one line for every step.
pub open spec fn answers(approvals: Seq<bool>) -> Seq<char>
    decreases approvals.len(),
{
    if approvals.len() == 0 {
        Seq::empty()
    } else {
        answers(approvals.drop_last()) + if approvals.last() {
            "y\n"@
        } else {
            "N\n"@
        }
    }
}

/// The answers to the prompts of `vigil fix`, one line for every step, in the
/// order of the plan.
pub fn build_fix_stdin(approvals: &[bool]) -> (r: String)
    ensures
        r@ == answers(approvals@),
{
    let mut r: String = String::new();
    let mut i: usize = 0;
    while i < approvals.len()
        invariant
            i <= approvals@.len(),
            r@ == answers(approvals@.take(i as int)),
        decreases approvals@.len() - i,
    {
        assert(approvals@.take(i + 1).drop_last() == approvals@.take(i as int));
        if approvals[i] {
            r.append("y\n");
        } else {
            r.append("N\n");
        }
        i = i + 1;
    }
    assert(approvals@.take(i as int) == approvals@);
    r
}

/// The prompts understand the answers: they are as many lines as there are
/// steps, and each approves its step exactly if that was approved.
pub proof fn law_answers_are_understood(approvals: Seq<bool>)
    ensures
        lines(answers(approvals)).len() == approvals.len(),
        forall|i: int|
            0 <= i < approvals.len() ==> approves(#[trigger] lines(answers(approvals))[i])
                == approvals[i],
    decreases approvals.len(),
{
    if approvals.len() > 0 {
        let less = approvals.drop_last();
        law_answers_are_understood(less);
        lemma_answers_end_lines(less);
        lemma_answers(approvals.last());
        let line = if approvals.last() {
            "y\n"@
        } else {
            "N\n"@
        };
        crate::journal_laws::lemma_lines_append(answers(less), line);
        let all = lines(answers(approvals));
        assert forall|i: int| 0 <= i < approvals.len() implies approves(#[trigger] all[i])
            == approvals[i] by {
            if i < less.len() {
                assert(all[i] == lines(answers(less))[i]);
                assert(less[i] == approvals[i]);
            }
        }
    }
}

proof fn lemma_answers_end_lines(approvals: Seq<bool>)
    ensures
        answers(approvals).len() > 0 ==> answers(approvals).last() == '\n',
{
    reveal_strlit("y\n");
    reveal_strlit("N\n");
}

} // verus!
