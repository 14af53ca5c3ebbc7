//! The incident journal: one markdown file per incident that is worth one,
//! named `<date>-<time>-<slug>.md`.
//!
//! A new incident starts with a stub: title, alert key, rule message, and
//! the command line of the process it points at, where there is one. An
//! investigation appends a `## Agent diagnosis` section, and a fix that was
//! carried out a `## Fix execution` section behind that.
use crate::order::{ascending, sorted_names};
use crate::paths::{join_path, path_join, vigil_dir, vigil_path};
use crate::alerts::optional_str;
use crate::text::{
    alphanumeric, chars_of, cut, find, find_at, find_from, has_prefix, is_alphanumeric, join,
    joined, line_bounds, lines, lowered, pieces, texts, to_lower, trim, trim_bounds, trim_end,
    trim_start_char, trim_start_char_bound, trimmed, trimmed_end,
};
use crate::process_tree::lemma_prefix;
use crate::snapshot_laws::{lemma_places, places};
use crate::text_laws::spelled_at;
use vstd::prelude::*;
use vstd::string::{StrSliceExecFns, StringExecFns};

verus! {

// ------------------------------------------------------------------ names

/// The directory of the journal.
pub open spec fn journal_dir(home: Option<Seq<char>>) -> Seq<char> {
    path_join(vigil_dir(home), "incidents"@)
}

/// The directory of the journal: a fixed one in the home directory, so that
/// the journal does not scatter over the directories the program is run from.
pub fn default_dir(home: Option<&str>) -> (r: String)
    ensures
        r@ == journal_dir(optional_str(home)),
{
    join_path(vigil_path(home).as_str(), "incidents")
}

/// How many letters and digits `s` starts with.
pub open spec fn run_len(s: Seq<char>) -> nat
    decreases s.len(),
{
    if s.len() == 0 || !is_alphanumeric(s[0]) {
        0
    } else {
        1 + run_len(s.skip(1))
    }
}

/// The maximal runs of ASCII letters and digits in `s`, in lower case.
pub open spec fn runs(s: Seq<char>) -> Seq<Seq<char>>
    decreases s.len(),
{
    if s.len() == 0 {
        Seq::empty()
    } else if !is_alphanumeric(s[0]) {
        runs(s.skip(1))
    } else {
        proof {
            lemma_run_len(s);
        }
        seq![lowered(s.take(run_len(s) as int))] + runs(s.skip(run_len(s) as int))
    }
}

pub proof fn lemma_run_len(s: Seq<char>)
    ensures
        run_len(s) <= s.len(),
        forall|i: int| 0 <= i < run_len(s) ==> is_alphanumeric(#[trigger] s[i]),
        run_len(s) < s.len() ==> !is_alphanumeric(s[run_len(s) as int]),
    decreases s.len(),
{
    if s.len() > 0 && is_alphanumeric(s[0]) {
        let t = s.skip(1);
        lemma_run_len(t);
        assert forall|i: int| 0 <= i < run_len(s) implies is_alphanumeric(#[trigger] s[i]) by {
            if i > 0 {
                assert(s[i] == t[i - 1]);
            }
        }
    }
}

/// `key` as words in lower case with hyphens between them.
pub open spec fn slug(key: Seq<char>) -> Seq<char> {
    join(runs(key), "-"@)
}

/// An alert key can hold characters that do not belong in a file name. This
/// turns it into words in lower case with hyphens between them.
pub fn slugify(key: &str) -> (r: String)
    ensures
        r@ == slug(key@),
{
    let cs = chars_of(key);
    let mut parts: Vec<String> = Vec::new();
    let mut i: usize = 0;
    let ghost all = runs(key@);
    assert(cs@.skip(0) == cs@);
    assert(texts(parts@) + runs(cs@.skip(0)) == all);
    while i < cs.len()
        invariant
            i <= cs@.len(),
            texts(parts@) + runs(cs@.skip(i as int)) == all,
        decreases cs@.len() - i,
    {
        let ghost rest = cs@.skip(i as int);
        if !alphanumeric(cs[i]) {
            assert(rest.skip(1) == cs@.skip(i + 1));
            i = i + 1;
        } else {
            let ghost had = parts@;
            let start = i;
            let mut word: String = String::new();
            assert(lowered(rest.take(0)) == word@);
            while i < cs.len() && alphanumeric(cs[i])
                invariant
                    start <= i <= cs@.len(),
                    rest == cs@.skip(start as int),
                    word@ == lowered(rest.take(i - start)),
                    run_len(rest) == i - start + run_len(cs@.skip(i as int)),
                decreases cs@.len() - i,
            {
                assert(cs@.skip(i as int).skip(1) == cs@.skip(i + 1));
                assert(rest[i - start] == cs@[i as int]);
                word.push(to_lower(cs[i]));
                assert(word@ == lowered(rest.take(i - start + 1)));
                i = i + 1;
            }
            assert(run_len(rest) == i - start);
            assert(rest.skip(i - start) == cs@.skip(i as int));
            parts.push(word);
            assert(texts(parts@) == texts(had).push(word@));
            assert(texts(parts@) + runs(cs@.skip(i as int)) == all);
        }
    }
    assert(cs@.skip(i as int) == Seq::<char>::empty());
    assert(texts(parts@) == all);
    joined(&parts, "-")
}

/// What the program `date` printed, or a word that says that it did not.
pub open spec fn date_text(output: Option<Seq<char>>) -> Seq<char> {
    match output {
        Some(s) if trim(s).len() > 0 => trim(s),
        _ => "unknown-time"@,
    }
}

/// What the program `date` printed, or a word that says that it did not.
pub fn date_output(output: Option<&str>) -> (r: String)
    ensures
        r@ == date_text(optional_str(output)),
{
    match output {
        Some(s) => {
            let t = trimmed(s);
            if t.as_str().is_empty() {
                "unknown-time".to_string()
            } else {
                t
            }
        },
        None => "unknown-time".to_string(),
    }
}

/// The format in which `date` is asked for the time in a file name.
pub fn timestamp_format() -> (r: &'static str)
    ensures
        r@ == "+%Y-%m-%d-%H-%M-%S"@,
{
    "+%Y-%m-%d-%H-%M-%S"
}

/// The time in a file name, from what `date` printed.
pub fn timestamp_prefix(output: Option<&str>) -> (r: String)
    ensures
        r@ == date_text(optional_str(output)),
{
    date_output(output)
}

/// The format in which `date` is asked for the time a plan was approved.
pub fn human_timestamp_format() -> (r: &'static str)
    ensures
        r@ == "+%Y-%m-%d %H:%M"@,
{
    "+%Y-%m-%d %H:%M"
}

/// The time a plan was approved, from what `date` printed.
pub fn human_timestamp(output: Option<&str>) -> (r: String)
    ensures
        r@ == date_text(optional_str(output)),
{
    date_output(output)
}

/// The name of the file of an incident.
pub open spec fn incident_file_name(time: Seq<char>, key: Seq<char>) -> Seq<char> {
    time + "-"@ + slug(key) + ".md"@
}

// ---------------------------------------------------------------- writing

/// What is known when an alert fires.
pub struct IncidentStub<'a> {
    pub alert_key: &'a str,
    pub alert_title: &'a str,
    pub alert_message: &'a str,
    pub command: Option<&'a str>,
}

/// A file to write.
pub struct StubFile {
    pub path: String,
    pub body: String,
}

pub open spec fn command_field(command: Option<Seq<char>>) -> Seq<char> {
    match command {
        Some(cmd) if cmd.len() > 0 => "\n\n**Command:** "@ + cmd,
        _ => Seq::empty(),
    }
}

/// The text of a stub.
pub open spec fn stub_text(
    key: Seq<char>,
    title: Seq<char>,
    message: Seq<char>,
    command: Option<Seq<char>>,
) -> Seq<char> {
    "# "@ + title + "\n\n**Alert key:** `"@ + key + "`\n\n**Rule message:** "@ + message
        + command_field(command) + "\n"@
}

/// The file that starts an incident, in the directory `dir`. `date` is what
/// the program `date` printed for [`timestamp_format`].
pub fn write_stub(dir: &str, date: Option<&str>, stub: &IncidentStub<'_>) -> (r: StubFile)
    ensures
        r.path@ == path_join(
            dir@,
            incident_file_name(date_text(optional_str(date)), stub.alert_key@),
        ),
        r.body@ == stub_text(
            stub.alert_key@,
            stub.alert_title@,
            stub.alert_message@,
            optional_str(stub.command),
        ),
{
    let mut name = timestamp_prefix(date);
    name.append("-");
    name.append(slugify(stub.alert_key).as_str());
    name.append(".md");
    let mut running: String = String::new();
    if let Some(cmd) = stub.command {
        if !cmd.is_empty() {
            running = "\n\n**Command:** ".to_string();
            running.append(cmd);
        }
    }
    let mut body = "# ".to_string();
    body.append(stub.alert_title);
    body.append("\n\n**Alert key:** `");
    body.append(stub.alert_key);
    body.append("`\n\n**Rule message:** ");
    body.append(stub.alert_message);
    body.append(running.as_str());
    body.append("\n");
    StubFile { path: join_path(dir, name.as_str()), body }
}

/// A section as it is appended to the file of an incident.
pub open spec fn section(heading: Seq<char>, body: Seq<char>) -> Seq<char> {
    "\n## "@ + heading + "\n\n"@ + trim_end(body) + "\n"@
}

fn append_section(heading: &str, body: &str) -> (r: String)
    ensures
        r@ == section(heading@, body@),
{
    let mut r = "\n## ".to_string();
    r.append(heading);
    r.append("\n\n");
    r.append(trimmed_end(body).as_str());
    r.append("\n");
    r
}

/// What an investigation appends to the file: the agent's answer, which may
/// hold headings of its own.
pub fn append_diagnosis(diagnosis: &str) -> (r: String)
    ensures
        r@ == section("Agent diagnosis"@, diagnosis@),
{
    append_section("Agent diagnosis", diagnosis)
}

/// What a fix that was carried out appends to the file.
pub fn append_fix_execution(journal: &str) -> (r: String)
    ensures
        r@ == section("Fix execution"@, journal@),
{
    append_section("Fix execution", journal)
}

// ---------------------------------------------------------------- listing

/// The name has the extension `md`.
pub open spec fn is_markdown(name: Seq<char>) -> bool {
    name.len() > 3 && ".md"@.is_suffix_of(name)
}

/// The names with the extension `md`.
pub open spec fn markdown(names: Seq<String>) -> Seq<String> {
    names.filter(|n: String| is_markdown(n@))
}

fn has_markdown_extension(name: &str) -> (r: bool)
    ensures
        r == is_markdown(name@),
{
    let cs = chars_of(name);
    let n = cs.len();
    proof {
        reveal_strlit(".md");
    }
    let r = n > 3 && cs[n - 3] == '.' && cs[n - 2] == 'm' && cs[n - 1] == 'd';
    proof {
        if n > 3 {
            let tail = cs@.subrange(n - 3, n as int);
            if r {
                assert(tail =~= ".md"@);
            } else if tail == ".md"@ {
                assert(tail[0] == cs@[n - 3] && tail[1] == cs@[n - 2] && tail[2] == cs@[n - 1]);
            }
        }
    }
    r
}

/// The incident files among the names in the journal's directory, oldest
/// first: the names start with the time.
pub fn list(names: Vec<String>) -> (r: Vec<String>)
    ensures
        ascending(r@),
        r@.to_multiset() == markdown(names@).to_multiset(),
{
    let mut kept: Vec<String> = Vec::new();
    let mut i: usize = 0;
    let ghost is_md = |n: String| is_markdown(n@);
    proof {
        reveal(Seq::filter);
        assert(names@.take(0) == Seq::<String>::empty());
    }
    while i < names.len()
        invariant
            i <= names@.len(),
            is_md == (|n: String| is_markdown(n@)),
            kept@ == names@.take(i as int).filter(is_md),
        decreases names@.len() - i,
    {
        proof {
            names@.take(i as int).lemma_filter_push(names@[i as int], is_md);
            assert(names@.take(i + 1) == names@.take(i as int).push(names@[i as int]));
        }
        if has_markdown_extension(names[i].as_str()) {
            kept.push(names[i].clone());
        }
        i = i + 1;
    }
    assert(names@.take(i as int) == names@);
    sorted_names(kept)
}

// ---------------------------------------------------------------- reading

pub open spec fn if_any(s: Seq<char>) -> Option<Seq<char>> {
    if s.len() > 0 {
        Some(s)
    } else {
        None
    }
}

/// The title in the first of `ls` that is not blank: without the marks of a
/// heading.
pub open spec fn title_in(ls: Seq<Seq<char>>) -> Seq<char>
    decreases ls.len(),
{
    if ls.len() == 0 {
        "(untitled)"@
    } else if trim(ls[0]).len() > 0 {
        trim(trim_start_char(ls[0], '#'))
    } else {
        title_in(ls.skip(1))
    }
}

/// The title of an incident.
pub open spec fn title_of(content: Seq<char>) -> Seq<char> {
    title_in(lines(content))
}

/// What stands behind `label` in the first of `ls` that starts with it, white
/// space aside.
pub open spec fn field_in(ls: Seq<Seq<char>>, label: Seq<char>) -> Option<Seq<char>>
    decreases ls.len(),
{
    if ls.len() == 0 {
        None
    } else if label.is_prefix_of(trim(ls[0])) {
        Some(trim(trim(ls[0]).skip(label.len() as int)))
    } else {
        field_in(ls.skip(1), label)
    }
}

/// The value of the field `label`, if there is one that is not blank.
pub open spec fn field(content: Seq<char>, label: Seq<char>) -> Option<Seq<char>> {
    match field_in(lines(content), label) {
        Some(s) => if_any(s),
        None => None,
    }
}

/// `s` without the backticks around it, if it has them.
pub open spec fn unticked(s: Seq<char>) -> Option<Seq<char>> {
    if s.len() >= 2 && s[0] == '`' && s.last() == '`' {
        Some(s.subrange(1, s.len() - 1))
    } else {
        None
    }
}

/// The alert key of an incident.
pub open spec fn alert_key_of(content: Seq<char>) -> Option<Seq<char>> {
    match field_in(lines(content), "**Alert key:**"@) {
        Some(s) => match unticked(s) {
            Some(k) => if_any(k),
            None => None,
        },
        None => None,
    }
}

/// The smaller of two positions, or `len` where there is none.
pub open spec fn earliest(a: Option<int>, b: Option<int>, len: int) -> int {
    match (a, b) {
        (Some(x), Some(y)) => if x <= y {
            x
        } else {
            y
        },
        (Some(x), None) => x,
        (None, Some(y)) => y,
        (None, None) => len,
    }
}

/// The diagnosis: what stands behind its heading, up to the plan that may be
/// part of it or the section that may follow it.
pub open spec fn diagnosis_of(content: Seq<char>) -> Option<Seq<char>> {
    match find(content, "## Agent diagnosis"@) {
        Some(i) => {
            let start = i + "## Agent diagnosis"@.len();
            let end = earliest(
                find_from(content, "## Proposed fix"@, start),
                find_from(content, "## Fix execution"@, start),
                content.len() as int,
            );
            if_any(trim(content.subrange(start, end)))
        },
        None => None,
    }
}

/// The report on a fix: what stands behind its heading, to the end.
pub open spec fn fix_execution_of(content: Seq<char>) -> Option<Seq<char>> {
    match find(content, "## Fix execution"@) {
        Some(i) => if_any(trim(content.skip(i + "## Fix execution"@.len()))),
        None => None,
    }
}

/// The first line of an incident file that is not blank, without the marks
/// of a heading.
pub fn extract_title(content: &str) -> (r: &str)
    ensures
        r@ == title_of(content@),
{
    let cs = chars_of(content);
    let ls = line_bounds(cs.as_slice());
    let ghost all = lines(content@);
    assert(pieces(cs@, ls@) == all);
    let mut i: usize = 0;
    assert(all.skip(0) == all);
    while i < ls.len()
        invariant
            i <= ls@.len(),
            cs@ == content@,
            cut(ls@, cs@.len()),
            all == lines(content@),
            pieces(cs@, ls@) == all,
            title_in(all) == title_in(all.skip(i as int)),
        decreases ls@.len() - i,
    {
        let (from, to) = ls[i];
        assert(pieces(cs@, ls@)[i as int] == cs@.subrange(from as int, to as int));
        assert(all.skip(i as int)[0] == cs@.subrange(from as int, to as int));
        let (a, b) = trim_bounds(cs.as_slice(), from, to);
        if a < b {
            let start = trim_start_char_bound(cs.as_slice(), from, to, '#');
            let (x, y) = trim_bounds(cs.as_slice(), start, to);
            return content.substring_char(x, y);
        }
        assert(all.skip(i as int).skip(1) == all.skip(i + 1));
        i = i + 1;
    }
    "(untitled)"
}

/// The bounds of what stands behind `label` in the first line that starts
/// with it.
fn field_bounds(cs: &[char], label: &str) -> (r: Option<(usize, usize)>)
    ensures
        match r {
            Some((a, b)) => a <= b <= cs@.len() && field_in(lines(cs@), label@) == Some(
                cs@.subrange(a as int, b as int),
            ),
            None => field_in(lines(cs@), label@) is None,
        },
{
    let mark = chars_of(label);
    let ls = line_bounds(cs);
    let ghost all = lines(cs@);
    assert(pieces(cs@, ls@) == all);
    let mut i: usize = 0;
    assert(all.skip(0) == all);
    while i < ls.len()
        invariant
            i <= ls@.len(),
            mark@ == label@,
            cut(ls@, cs@.len()),
            all == lines(cs@),
            pieces(cs@, ls@) == all,
            field_in(all, label@) == field_in(all.skip(i as int), label@),
        decreases ls@.len() - i,
    {
        let (from, to) = ls[i];
        assert(pieces(cs@, ls@)[i as int] == cs@.subrange(from as int, to as int));
        assert(all.skip(i as int)[0] == cs@.subrange(from as int, to as int));
        if let Some(bounds) = value_bounds(cs, from, to, mark.as_slice()) {
            return Some(bounds);
        }
        assert(all.skip(i as int).skip(1) == all.skip(i + 1));
        i = i + 1;
    }
    None
}

/// The bounds of what stands behind `label` in the part of `cs`, where that
/// starts with it.
fn value_bounds(cs: &[char], from: usize, to: usize, label: &[char]) -> (r: Option<(usize, usize)>)
    requires
        from <= to <= cs@.len(),
    ensures
        ({
            let line = trim(cs@.subrange(from as int, to as int));
            match r {
                Some((a, b)) => a <= b <= cs@.len() && label@.is_prefix_of(line) && cs@.subrange(
                    a as int,
                    b as int,
                ) == trim(line.skip(label@.len() as int)),
                None => !label@.is_prefix_of(line),
            }
        }),
{
    let (a, b) = trim_bounds(cs, from, to);
    if has_prefix(cs, a, b, label) {
        let ghost line = cs@.subrange(a as int, b as int);
        let start = a + label.len();
        assert(line.skip(label@.len() as int) == cs@.subrange(start as int, b as int));
        Some(trim_bounds(cs, start, b))
    } else {
        None
    }
}

fn extract_field<'a>(content: &'a str, label: &str) -> (r: Option<&'a str>)
    ensures
        optional_str(r) == field(content@, label@),
{
    let cs = chars_of(content);
    match field_bounds(cs.as_slice(), label) {
        Some((a, b)) => if a < b {
            Some(content.substring_char(a, b))
        } else {
            None
        },
        None => None,
    }
}

/// What stands behind `**Rule message:**`: what an investigation hands to
/// the agent.
pub fn extract_rule_message(content: &str) -> (r: Option<&str>)
    ensures
        optional_str(r) == field(content@, "**Rule message:**"@),
{
    extract_field(content, "**Rule message:**")
}

/// What stands behind `**Command:**`: the command line of the process when
/// the alert fired, so that a reused pid can be told from the one meant.
pub fn extract_command(content: &str) -> (r: Option<&str>)
    ensures
        optional_str(r) == field(content@, "**Command:**"@),
{
    extract_field(content, "**Command:**")
}

/// What stands behind `**Alert key:**`, without the backticks around it.
pub fn extract_alert_key(content: &str) -> (r: Option<&str>)
    ensures
        optional_str(r) == alert_key_of(content@),
{
    let cs = chars_of(content);
    match field_bounds(cs.as_slice(), "**Alert key:**") {
        Some((a, b)) => {
            let ghost s = cs@.subrange(a as int, b as int);
            if b - a >= 2 && cs[a] == '`' && cs[b - 1] == '`' {
                assert(unticked(s) == Some(cs@.subrange(a + 1, b - 1)));
                if b - a > 2 {
                    Some(content.substring_char(a + 1, b - 1))
                } else {
                    None
                }
            } else {
                None
            }
        },
        None => None,
    }
}

/// The agent's diagnosis. A plan proposed in it is left out: that is read by
/// itself.
pub fn extract_diagnosis(content: &str) -> (r: Option<&str>)
    ensures
        optional_str(r) == diagnosis_of(content@),
{
    let cs = chars_of(content);
    let len = cs.len();
    let heading = chars_of("## Agent diagnosis");
    let plan = chars_of("## Proposed fix");
    let report = chars_of("## Fix execution");
    match find_at(cs.as_slice(), heading.as_slice(), 0) {
        Some(i) => {
            let start = i + heading.len();
            let mut end: usize = len;
            if let Some(x) = find_at(cs.as_slice(), plan.as_slice(), start) {
                end = x;
            }
            if let Some(y) = find_at(cs.as_slice(), report.as_slice(), start) {
                if y < end {
                    end = y;
                }
            }
            let (a, b) = trim_bounds(cs.as_slice(), start, end);
            if a < b {
                Some(content.substring_char(a, b))
            } else {
                None
            }
        },
        None => None,
    }
}

/// The report on a fix that was carried out.
pub fn extract_fix_execution(content: &str) -> (r: Option<&str>)
    ensures
        optional_str(r) == fix_execution_of(content@),
{
    let cs = chars_of(content);
    let len = cs.len();
    let heading = chars_of("## Fix execution");
    match find_at(cs.as_slice(), heading.as_slice(), 0) {
        Some(i) => {
            let start = i + heading.len();
            let (a, b) = trim_bounds(cs.as_slice(), start, len);
            assert(cs@.subrange(start as int, cs@.len() as int) == cs@.skip(start as int));
            if a < b {
                Some(content.substring_char(a, b))
            } else {
                None
            }
        },
        None => None,
    }
}

/// A file belongs to the journal exactly when its name ends with `.md` and has
/// something in front of that; every such file is listed.
pub proof fn law_journal_files(names: Seq<String>, name: Seq<char>)
    ensures
        is_markdown(name) <==> name.len() > 3 && name[name.len() - 3] == '.' && name[name.len() - 2]
            == 'm' && name[name.len() - 1] == 'd',
        forall|k: int|
            0 <= k < names.len() && is_markdown((#[trigger] names[k])@) ==> markdown(
                names,
            ).contains(names[k]),
        forall|i: int|
            0 <= i < markdown(names).len() ==> is_markdown((#[trigger] markdown(names)[i])@),
        markdown(names).len() == places(names, |n: String| is_markdown(n@)).len(),
{
    broadcast use {Seq::lemma_filter_pred, Seq::lemma_filter_contains};

    reveal_strlit(".md");
    if name.len() > 3 {
        let n = name.len() as int;
        let tail = name.subrange(n - 3, n);
        if tail == ".md"@ {
            assert(tail[0] == name[n - 3] && tail[1] == name[n - 2] && tail[2] == name[n - 1]);
        }
        if name[n - 3] == '.' && name[n - 2] == 'm' && name[n - 1] == 'd' {
            assert(tail =~= ".md"@);
        }
    }
    let is_md = |n: String| is_markdown(n@);
    lemma_places(names, is_md);
    assert forall|k: int| 0 <= k < names.len() && is_markdown((#[trigger] names[k])@) implies markdown(
        names,
    ).contains(names[k]) by {
        assert(is_md(names[k]));
    }
    assert forall|i: int| 0 <= i < markdown(names).len() implies is_markdown(
        (#[trigger] markdown(names)[i])@,
    ) by {
        assert(is_md(names.filter(is_md)[i]));
    }
}

/// A time is what `date` printed, trimmed, and a fixed word where that is
/// nothing.
pub proof fn law_time_text(output: Seq<char>)
    ensures
        date_text(None) == "unknown-time"@,
        trim(output).len() == 0 ==> date_text(Some(output)) == "unknown-time"@,
        trim(output).len() > 0 ==> date_text(Some(output)) == trim(output),
{
}

/// The title is taken from the first line that is not blank, wherever that
/// stands, without the marks of a heading.
pub proof fn law_title_line(line: Seq<char>, rest: Seq<Seq<char>>)
    ensures
        title_in(Seq::<Seq<char>>::empty()) == "(untitled)"@,
        trim(line).len() == 0 ==> title_in(seq![line] + rest) == title_in(rest),
        trim(line).len() > 0 ==> title_in(seq![line] + rest) == trim(trim_start_char(line, '#')),
{
    assert((seq![line] + rest).skip(1) =~= rest);
    assert((seq![line] + rest)[0] == line);
}

/// A field is taken from the first line that starts with its label, white
/// space aside and wherever that stands: what follows the label there.
pub proof fn law_field_line(
    line: Seq<char>,
    rest: Seq<Seq<char>>,
    label: Seq<char>,
    value: Seq<char>,
)
    ensures
        field_in(Seq::<Seq<char>>::empty(), label) is None,
        trim(line) == label + value ==> field_in(seq![line] + rest, label) == Some(trim(value)),
        !spelled_at(trim(line), label, 0) ==> field_in(seq![line] + rest, label) == field_in(
            rest,
            label,
        ),
{
    let all = seq![line] + rest;
    assert(all.skip(1) =~= rest);
    assert(all[0] == line);
    lemma_prefix(trim(line), label);
    if trim(line) == label + value {
        assert((label + value).subrange(0, label.len() as int) =~= label);
        assert((label + value).skip(label.len() as int) =~= value);
    }
}

/// The key stands between backticks; without both of them there is none.
pub proof fn law_key_is_ticked(key: Seq<char>)
    ensures
        unticked(seq!['`'] + key + seq!['`']) == Some(key),
        key.len() < 2 || key[0] != '`' || key.last() != '`' ==> unticked(key) is None,
        if_any(key) is Some <==> key.len() > 0,
        key.len() > 0 ==> if_any(key) == Some(key),
{
    let s = seq!['`'] + key + seq!['`'];
    assert(s.subrange(1, s.len() - 1) =~= key);
    assert(s.last() == '`');
}

} // verus!
