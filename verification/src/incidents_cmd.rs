//! What `vigil incidents` decides: which of the saved incidents to list or
//! show, and what they hold, piece by piece.
use crate::alerts::optional_str;
use crate::fixplan::{extract_proposed_fix_json, parse_plan, plan_in, proposed_fix, steps_view, Plan, StepView};
use crate::incidents::{
    alert_key_of, diagnosis_of, extract_alert_key, extract_command, extract_diagnosis,
    extract_fix_execution, extract_rule_message, extract_title, field, fix_execution_of, list, markdown, title_of,
};
use crate::number::{decimal, push_decimal};
use crate::order::ascending;
use crate::text::{contains, contains_text, texts};
use crate::snapshot_laws::{lemma_places, places};
use crate::text_laws::{is_spelled_in, law_search_finds_the_first};
use vstd::prelude::*;
use vstd::string::StringExecFns;

verus! {

/// An incident, pulled apart.
pub struct IncidentJson<'a> {
    pub title: &'a str,
    pub alert_key: Option<&'a str>,
    pub rule_message: Option<&'a str>,
    pub command: Option<&'a str>,
    pub diagnosis: Option<&'a str>,
    pub proposed_fix: Option<Plan>,
    pub fix_execution: Option<&'a str>,
}

/// The plan that an incident proposes. One that cannot be read counts as none.
pub open spec fn usable_plan(content: Seq<char>) -> Option<Seq<StepView>> {
    match proposed_fix(content) {
        Some(json) => plan_in(json),
        None => None,
    }
}

/// Pulls an incident apart. A proposed fix that cannot be read counts as
/// none: this hands back what is usable, not the reason why something is not.
pub fn build_incident_json(content: &str) -> (r: IncidentJson<'_>)
    ensures
        r.title@ == title_of(content@),
        optional_str(r.alert_key) == alert_key_of(content@),
        optional_str(r.rule_message) == field(content@, "**Rule message:**"@),
        optional_str(r.command) == field(content@, "**Command:**"@),
        optional_str(r.diagnosis) == diagnosis_of(content@),
        match r.proposed_fix {
            Some(p) => usable_plan(content@) == Some(steps_view(p.plan@)),
            None => usable_plan(content@) is None,
        },
        optional_str(r.fix_execution) == fix_execution_of(content@),
{
    let proposed_fix = match extract_proposed_fix_json(content) {
        Some(json) => match parse_plan(json) {
            Ok(p) => Some(p),
            Err(_) => None,
        },
        None => None,
    };
    IncidentJson {
        title: extract_title(content),
        alert_key: extract_alert_key(content),
        rule_message: extract_rule_message(content),
        command: extract_command(content),
        diagnosis: extract_diagnosis(content),
        proposed_fix,
        fix_execution: extract_fix_execution(content),
    }
}

/// What to do.
pub enum Action {
    /// Print the line: there is nothing to list.
    Say(String),
    /// Print what the file of that name holds.
    Show(String),
    /// Print a line for each of the files.
    List(Vec<String>),
    /// Print the lines as errors, and fail.
    Fail(Vec<String>),
}

impl Action {
    /// The exit status that goes with it, as long as nothing else fails.
    pub fn exit_code(&self) -> (r: i32)
        ensures
            r == if self is Fail {
                1int
            } else {
                0
            },
    {
        match self {
            Action::Fail(_) => 1,
            _ => 0,
        }
    }
}

/// The names that hold `query`.
pub open spec fn holding(files: Seq<String>, query: Seq<char>) -> Seq<String> {
    files.filter(|n: String| contains(n@, query))
}

/// The last `limit` of `files`, the last one first.
pub open spec fn latest(files: Seq<String>, limit: nat) -> Seq<String> {
    crate::snapshot::first(files.reverse(), limit)
}

/// The error lines for a query that more than one file matches.
pub open spec fn ambiguous(matches: Seq<Seq<char>>, query: Seq<char>) -> Seq<Seq<char>> {
    seq![
        "[vigil] \""@ + query + "\" matches "@ + decimal(matches.len())
            + " incidents, be more specific:"@,
    ] + matches.map_values(|n: Seq<char>| "  "@ + n)
}

/// What `a` is for a journal in `dir` whose files are `files`, oldest first.
pub open spec fn decided(
    a: Action,
    dir: Seq<char>,
    files: Seq<String>,
    show: Option<Seq<char>>,
    limit: nat,
) -> bool {
    match show {
        Some(query) => {
            let matches = holding(files, query);
            if matches.len() == 0 {
                a matches Action::Fail(lines) && texts(lines@) == seq![
                    "[vigil] no incident matches \""@ + query + "\" in "@ + dir,
                ]
            } else if matches.len() == 1 {
                a == Action::Show(matches[0])
            } else {
                a matches Action::Fail(lines) && texts(lines@) == ambiguous(texts(matches), query)
            }
        },
        None => if files.len() == 0 {
            a matches Action::Say(line) && line@ == "No incidents recorded yet in "@ + dir
        } else {
            a matches Action::List(names) && names@ == latest(files, limit)
        },
    }
}

fn matching(files: &Vec<String>, query: &str) -> (r: Vec<String>)
    ensures
        r@ == holding(files@, query@),
{
    let mut r: Vec<String> = Vec::new();
    let mut i: usize = 0;
    let ghost has = |n: String| contains(n@, query@);
    proof {
        reveal(Seq::filter);
        assert(files@.take(0) == Seq::<String>::empty());
    }
    while i < files.len()
        invariant
            i <= files@.len(),
            has == (|n: String| contains(n@, query@)),
            r@ == files@.take(i as int).filter(has),
        decreases files@.len() - i,
    {
        proof {
            files@.take(i as int).lemma_filter_push(files@[i as int], has);
            assert(files@.take(i + 1) == files@.take(i as int).push(files@[i as int]));
        }
        if contains_text(files[i].as_str(), query) {
            r.push(files[i].clone());
        }
        i = i + 1;
    }
    assert(files@.take(i as int) == files@);
    r
}

fn ambiguous_lines(matches: &Vec<String>, query: &str) -> (r: Vec<String>)
    ensures
        texts(r@) == ambiguous(texts(matches@), query@),
{
    let ghost names = texts(matches@);
    let mut head = "[vigil] \"".to_string();
    head.append(query);
    head.append("\" matches ");
    push_decimal(&mut head, matches.len() as u128);
    head.append(" incidents, be more specific:");
    let ghost start = seq![head@];
    let mut r: Vec<String> = Vec::new();
    r.push(head);
    assert(texts(r@) == start + names.take(0).map_values(|n: Seq<char>| "  "@ + n));
    let mut i: usize = 0;
    while i < matches.len()
        invariant
            i <= matches@.len(),
            names == texts(matches@),
            texts(r@) == start + names.take(i as int).map_values(|n: Seq<char>| "  "@ + n),
        decreases matches@.len() - i,
    {
        let ghost had = r@;
        let mut line = "  ".to_string();
        line.append(matches[i].as_str());
        r.push(line);
        proof {
            assert(texts(r@) == texts(had).push("  "@ + names[i as int]));
            assert(names.take(i + 1) == names.take(i as int).push(names[i as int]));
            assert(names.take(i + 1).map_values(|n: Seq<char>| "  "@ + n) == names.take(
                i as int,
            ).map_values(|n: Seq<char>| "  "@ + n).push("  "@ + names[i as int]));
        }
        i = i + 1;
    }
    assert(names.take(i as int) == names);
    r
}

/// The last `limit` of `files`, the last one first.
pub fn latest_files(files: &Vec<String>, limit: usize) -> (r: Vec<String>)
    ensures
        r@ == latest(files@, limit as nat),
{
    let mut r: Vec<String> = Vec::new();
    let n = files.len();
    let mut i: usize = 0;
    while i < n && i < limit
        invariant
            i <= n,
            i <= limit,
            n == files@.len(),
            r@ == files@.reverse().take(i as int),
        decreases n - i,
    {
        r.push(files[n - 1 - i].clone());
        assert(files@.reverse().take(i + 1) == files@.reverse().take(i as int).push(
            files@[n - 1 - i],
        ));
        i = i + 1;
    }
    assert(r@ == latest(files@, limit as nat));
    r
}

/// Decides what to do about the journal in `dir`, where `names` are the names
/// in that directory: list the latest incidents, or show the one whose name
/// holds what is asked for.
pub fn run(dir: &str, names: Vec<String>, show: Option<&str>, limit: usize) -> (r: Action)
    ensures
        exists|files: Seq<String>|
            ascending(files) && files.to_multiset() == markdown(names@).to_multiset()
                && #[trigger] decided(r, dir@, files, optional_str(show), limit as nat),
{
    let files = list(names);
    match show {
        Some(query) => {
            let mut matches = matching(&files, query);
            let ghost found = matches@;
            if matches.len() == 0 {
                let mut line = "[vigil] no incident matches \"".to_string();
                line.append(query);
                line.append("\" in ");
                line.append(dir);
                let lines = vec![line];
                assert(texts(lines@) == seq![line@]);
                let r = Action::Fail(lines);
                assert(decided(r, dir@, files@, optional_str(show), limit as nat));
                r
            } else if matches.len() == 1 {
                let r = Action::Show(matches.remove(0));
                assert(decided(r, dir@, files@, optional_str(show), limit as nat));
                r
            } else {
                let r = Action::Fail(ambiguous_lines(&matches, query));
                assert(decided(r, dir@, files@, optional_str(show), limit as nat));
                r
            }
        },
        None => if files.len() == 0 {
            let mut line = "No incidents recorded yet in ".to_string();
            line.append(dir);
            let r = Action::Say(line);
            assert(decided(r, dir@, files@, optional_str(show), limit as nat));
            r
        } else {
            let r = Action::List(latest_files(&files, limit));
            assert(decided(r, dir@, files@, optional_str(show), limit as nat));
            r
        },
    }
}

/// The line for one file in a list: its name and the title of the incident.
/// `content` is `None` where the file cannot be read: that does not spoil the
/// list.
pub open spec fn listing(name: Seq<char>, content: Option<Seq<char>>) -> Seq<char> {
    name + "  "@ + match content {
        Some(c) => title_of(c),
        None => "(unreadable)"@,
    }
}

/// The line for one file in a list.
pub fn listing_line(name: &str, content: Option<&str>) -> (r: String)
    ensures
        r@ == listing(name@, optional_str(content)),
{
    let title = match content {
        Some(c) => extract_title(c),
        None => "(unreadable)",
    };
    let mut r = name.to_string();
    r.append("  ");
    r.append(title);
    r
}

/// A query matches exactly the files in whose names it stands.
pub proof fn law_query_matches(files: Seq<String>, query: Seq<char>)
    ensures
        forall|k: int|
            0 <= k < files.len() && is_spelled_in((#[trigger] files[k])@, query) ==> holding(
                files,
                query,
            ).contains(files[k]),
        forall|j: int|
            0 <= j < holding(files, query).len() ==> is_spelled_in(
                (#[trigger] holding(files, query)[j])@,
                query,
            ),
        holding(files, query).len() == places(files, |n: String| is_spelled_in(n@, query)).len(),
{
    broadcast use {Seq::lemma_filter_pred, Seq::lemma_filter_contains};

    let has = |n: String| contains(n@, query);
    let spelled = |n: String| is_spelled_in(n@, query);
    assert forall|n: String| has(n) == #[trigger] spelled(n) by {
        law_search_finds_the_first(n@, query, 0);
    }
    assert(has =~= spelled);
    lemma_places(files, has);
    assert forall|k: int|
        0 <= k < files.len() && is_spelled_in((#[trigger] files[k])@, query) implies holding(
        files,
        query,
    ).contains(files[k]) by {
        assert(spelled(files[k]));
    }
    assert forall|j: int| 0 <= j < holding(files, query).len() implies is_spelled_in(
        (#[trigger] holding(files, query)[j])@,
        query,
    ) by {
        assert(spelled(files.filter(has)[j]));
    }
}

/// What is listed are the last files, the last one first, and no more than
/// were asked for.
pub proof fn law_latest_first(files: Seq<String>, limit: nat)
    ensures
        latest(files, limit).len() == if files.len() < limit {
            files.len()
        } else {
            limit
        },
        forall|i: int|
            0 <= i < latest(files, limit).len() ==> #[trigger] latest(files, limit)[i]
                == files[files.len() - 1 - i],
{
}

/// A query that one file matches shows that file; one that none or several
/// match fails; without a query the files are listed, where there are any.
pub proof fn law_what_is_done(
    a: Action,
    dir: Seq<char>,
    files: Seq<String>,
    show: Option<Seq<char>>,
    limit: nat,
)
    requires
        decided(a, dir, files, show, limit),
    ensures
        show is Some && holding(files, show->0).len() == 1 ==> a == Action::Show(
            holding(files, show->0)[0],
        ),
        show is Some && holding(files, show->0).len() != 1 ==> a is Fail,
        show is None && files.len() == 0 ==> a is Say,
        show is None && files.len() > 0 ==> (a matches Action::List(names) && names@ == latest(
            files,
            limit,
        )),
        a is Fail ==> show is Some,
{
}

/// Where several files match, every one of them is named.
pub proof fn law_ambiguity_names_all(matches: Seq<Seq<char>>, query: Seq<char>, k: int)
    requires
        0 <= k < matches.len(),
    ensures
        ambiguous(matches, query).len() == matches.len() + 1,
        ambiguous(matches, query)[k + 1] == "  "@ + matches[k],
{
}

/// An incident is listed by the name of its file and its title.
pub proof fn law_listing(name: Seq<char>, content: Seq<char>)
    ensures
        listing(name, Some(content)) == name + "  "@ + title_of(content),
        listing(name, None) == name + "  "@ + "(unreadable)"@,
{
}

/// An incident has a plan exactly when a fix is proposed in it that is one.
pub proof fn law_usable_plan(content: Seq<char>)
    ensures
        proposed_fix(content) is None ==> usable_plan(content) is None,
        proposed_fix(content) matches Some(json) ==> usable_plan(content) == plan_in(json),
{
}

} // verus!
