//! What `vigil investigate` decides: which incident file an alert key means,
//! and what to ask the agent about it.
use crate::agent::{build_diagnosis_question, diagnosis_question};
use crate::alerts::optional_str;
use crate::incidents::{
    extract_command, extract_rule_message, field, is_markdown, list, markdown, slug, slugify,
};
use crate::order::ascending;
use crate::paths::{join_path, path_join};
use crate::text::{contains, contains_text, text_le};
use crate::incidents::law_journal_files;
use crate::text_laws::{law_search_finds_the_first, spelled_at};
use vstd::prelude::*;
use vstd::string::StringExecFns;

verus! {

/// The name is that of an incident file about the alert.
pub open spec fn is_about(name: Seq<char>, alert_key: Seq<char>) -> bool {
    is_markdown(name) && contains(name, slug(alert_key))
}

/// The name is the last one, in the order of names and so of time, of an
/// incident file about the alert.
pub open spec fn is_latest_about(names: Seq<String>, i: int, alert_key: Seq<char>) -> bool {
    &&& 0 <= i < names.len()
    &&& is_about(names[i]@, alert_key)
    &&& forall|j: int|
        0 <= j < names.len() && is_about((#[trigger] names[j])@, alert_key) ==> text_le(
            names[j]@,
            names[i]@,
        )
}

/// The listed names are those among `names` that are listed.
proof fn lemma_listed(names: Seq<String>, files: Seq<String>)
    requires
        files.to_multiset() == markdown(names).to_multiset(),
    ensures
        forall|k: int| 0 <= k < files.len() ==> #[trigger] is_named(names, files[k]),
        forall|j: int|
            0 <= j < names.len() && is_markdown((#[trigger] names[j])@) ==> files.contains(names[j]),
{
    broadcast use vstd::seq_lib::group_to_multiset_ensures;

    let is_md = |n: String| is_markdown(n@);
    let kept = markdown(names);
    assert forall|k: int| 0 <= k < files.len() implies #[trigger] is_named(names, files[k]) by {
        assert(files.contains(files[k]));
        assert(kept.to_multiset().count(files[k]) > 0);
        assert(kept.contains(files[k]));
        names.lemma_filter_contains_rev(is_md, files[k]);
        let i = choose|i: int| 0 <= i < kept.len() && kept[i] == files[k];
        names.lemma_filter_pred(is_md, i);
        let j = choose|j: int| 0 <= j < names.len() && names[j] == files[k];
        assert(names[j] == files[k]);
    }
    assert forall|j: int|
        0 <= j < names.len() && is_markdown((#[trigger] names[j])@) implies files.contains(
        names[j],
    ) by {
        names.lemma_filter_contains(is_md, j);
        assert(kept.to_multiset().count(names[j]) > 0);
    }
}

/// `name` is one of `names`, and one of an incident file.
pub open spec fn is_named(names: Seq<String>, name: String) -> bool {
    is_markdown(name@) && exists|j: int| 0 <= j < names.len() && #[trigger] names[j] == name
}

/// The path of the latest incident file whose name holds the slug of the
/// alert key. `names` are the names in the journal's directory `dir`.
pub fn resolve_incident_file(dir: &str, names: Vec<String>, alert_key: &str) -> (r: Result<
    String,
    String,
>)
    ensures
        match r {
            Ok(path) => exists|i: int| #[trigger]
                is_latest_about(names@, i, alert_key@) && path@ == path_join(dir@, names@[i]@),
            Err(e) => {
                &&& forall|j: int|
                    0 <= j < names@.len() ==> !is_about((#[trigger] names@[j])@, alert_key@)
                &&& e@ == "no incident found for alert key \""@ + alert_key@ + "\" in "@ + dir@
            },
        },
{
    let ghost all = names@;
    let files = list(names);
    let wanted = slugify(alert_key);
    proof {
        lemma_listed(all, files@);
    }
    let mut n: usize = files.len();
    while n > 0
        invariant
            n <= files@.len(),
            wanted@ == slug(alert_key@),
            ascending(files@),
            forall|k: int| 0 <= k < files@.len() ==> #[trigger] is_named(all, files@[k]),
            forall|j: int|
                0 <= j < all.len() && is_markdown((#[trigger] all[j])@) ==> files@.contains(all[j]),
            forall|k: int|
                n <= k < files@.len() ==> !contains((#[trigger] files@[k])@, slug(alert_key@)),
            all == names@,
        decreases n,
    {
        let last = n - 1;
        if contains_text(files[last].as_str(), wanted.as_str()) {
            proof {
                let name = files@[last as int];
                assert(is_named(all, files@[last as int]));
                let i = choose|i: int| 0 <= i < all.len() && #[trigger] all[i] == name;
                assert forall|j: int|
                    0 <= j < all.len() && is_about((#[trigger] all[j])@, alert_key@) implies text_le(
                    all[j]@,
                    all[i]@,
                ) by {
                    let k = choose|k: int| 0 <= k < files@.len() && files@[k] == all[j];
                    assert(files@[k]@ == all[j]@);
                    if k == last {
                        crate::order::lemma_text_le_reflexive(name@);
                    } else {
                        assert(text_le(files@[k]@, files@[last as int]@));
                    }
                }
                assert(is_latest_about(all, i, alert_key@));
            }
            return Ok(join_path(dir, files[last].as_str()));
        }
        n = last;
    }
    proof {
        assert forall|j: int| 0 <= j < all.len() implies !is_about(
            (#[trigger] all[j])@,
            alert_key@,
        ) by {
            if is_about(all[j]@, alert_key@) {
                let k = choose|k: int| 0 <= k < files@.len() && files@[k] == all[j];
                assert(!contains(files@[k]@, slug(alert_key@)));
            }
        }
    }
    let mut e = "no incident found for alert key \"".to_string();
    e.append(alert_key);
    e.append("\" in ");
    e.append(dir);
    Err(e)
}

/// The rule message of an incident, or words for there being none.
pub open spec fn message_of(content: Seq<char>) -> Seq<char> {
    match field(content, "**Rule message:**"@) {
        Some(m) => m,
        None => "(unknown alert)"@,
    }
}

/// What to ask the agent about the incident in a file.
pub fn investigation_question(content: &str, watch_log: Option<&str>) -> (r: String)
    ensures
        r@ == diagnosis_question(
            message_of(content@),
            None,
            optional_str(watch_log),
            field(content@, "**Command:**"@),
        ),
{
    let message = match extract_rule_message(content) {
        Some(m) => m,
        None => "(unknown alert)",
    };
    build_diagnosis_question(message, None, watch_log, extract_command(content))
}

/// A file is about an alert exactly when it belongs to the journal and the
/// words of the alert's key stand somewhere in its name.
pub proof fn law_file_is_about(name: Seq<char>, alert_key: Seq<char>)
    ensures
        is_about(name, alert_key) <==> {
            &&& name.len() > 3
            &&& name[name.len() - 3] == '.' && name[name.len() - 2] == 'm' && name[name.len() - 1]
                == 'd'
            &&& exists|i: int| spelled_at(name, slug(alert_key), i)
        },
{
    law_journal_files(Seq::<String>::empty(), name);
    law_search_finds_the_first(name, slug(alert_key), 0);
}

/// Of several files about an alert the one with the last name is taken, and
/// the names start with the time.
pub proof fn law_latest_is_taken(names: Seq<String>, i: int, j: int, alert_key: Seq<char>)
    requires
        is_latest_about(names, i, alert_key),
        0 <= j < names.len(),
        is_about(names[j]@, alert_key),
    ensures
        is_about(names[i]@, alert_key),
        text_le(names[j]@, names[i]@),
{
}

/// The question is about the message in the incident's file, and says so where
/// there is none.
pub proof fn law_message(content: Seq<char>)
    ensures
        field(content, "**Rule message:**"@) is Some ==> message_of(content) == field(
            content,
            "**Rule message:**"@,
        )->0,
        field(content, "**Rule message:**"@) is None ==> message_of(content) == "(unknown alert)"@,
{
}

} // verus!
