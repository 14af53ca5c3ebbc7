//! The plan that an investigation may propose in an incident file, and the
//! part of it that the user approved.
use crate::alerts::optional_str;
use crate::incidents::if_any;
use crate::json::{
    describe, has_plain_names, holds_written, is_null, is_plain, is_written, items, json_document, json_items, json_of, json_string,
    lemma_plain_name, member, member_count, member_texts, members, read_json, record_text, record_texts, string,
    write_string, written_json, written_text, Json, Scalar, Written,
};
use crate::number::{decimal, decimal_text};
use crate::text::{chars_of, find, find_at, find_from, join, joined, same, texts, trim, trim_bounds};
use crate::text::contains;
use crate::text_laws::{law_search_finds_the_first, lemma_trim_part, spelled_at};
use vstd::prelude::*;
use vstd::string::{StrSliceExecFns, StringExecFns};

verus! {

#[derive(Debug, Clone, Copy, PartialEq, Eq, Structural)]
pub enum FixCategory {
    KillProcess,
    DeletePath,
    SystemSetting,
}

/// The name of a category in a plan.
pub open spec fn category_name(c: FixCategory) -> Seq<char> {
    match c {
        FixCategory::KillProcess => "kill_process"@,
        FixCategory::DeletePath => "delete_path"@,
        FixCategory::SystemSetting => "system_setting"@,
    }
}

impl FixCategory {
    /// The name of the category in a plan, as the agent writes and expects it.
    pub fn as_str(&self) -> (r: &'static str)
        ensures
            r@ == category_name(*self),
    {
        match self {
            FixCategory::KillProcess => "kill_process",
            FixCategory::DeletePath => "delete_path",
            FixCategory::SystemSetting => "system_setting",
        }
    }
}

#[derive(Debug)]
pub struct PlanStep {
    pub category: FixCategory,
    pub description: String,
    pub target_hint: String,
}

impl Clone for PlanStep {
    fn clone(&self) -> (r: Self)
        ensures
            r == *self,
    {
        PlanStep {
            category: self.category,
            description: self.description.clone(),
            target_hint: self.target_hint.clone(),
        }
    }
}

#[derive(Debug)]
pub struct Plan {
    pub plan: Vec<PlanStep>,
}

impl Clone for Plan {
    fn clone(&self) -> (r: Self)
        ensures
            r.plan@ == self.plan@,
    {
        let mut plan: Vec<PlanStep> = Vec::new();
        let mut i: usize = 0;
        while i < self.plan.len()
            invariant
                i <= self.plan@.len(),
                plan@ == self.plan@.take(i as int),
            decreases self.plan@.len() - i,
        {
            plan.push(self.plan[i].clone());
            assert(self.plan@.take(i + 1) == self.plan@.take(i as int).push(self.plan@[i as int]));
            i = i + 1;
        }
        assert(plan@ == self.plan@);
        Plan { plan }
    }
}

/// What a step says.
pub struct StepView {
    pub category: FixCategory,
    pub description: Seq<char>,
    pub target_hint: Seq<char>,
}

impl View for PlanStep {
    type V = StepView;

    open spec fn view(&self) -> StepView {
        StepView {
            category: self.category,
            description: self.description@,
            target_hint: self.target_hint@,
        }
    }
}

pub open spec fn steps_view(steps: Seq<PlanStep>) -> Seq<StepView> {
    steps.map_values(|s: PlanStep| s@)
}

// ------------------------------------------------------- finding the plan

/// The text in the first fenced block of JSON behind the heading.
pub open spec fn proposed_fix(content: Seq<char>) -> Option<Seq<char>> {
    match find(content, "## Proposed fix"@) {
        Some(heading) => match find_from(content, "```json"@, heading) {
            Some(fence) => {
                let start = fence + "```json"@.len();
                match find_from(content, "```"@, start) {
                    Some(end) => if_any(trim(content.subrange(start, end))),
                    None => None,
                }
            },
            None => None,
        },
        None => None,
    }
}

/// The fenced block of JSON that follows the heading `## Proposed fix`.
/// Without the heading, or without a block that is closed and not blank, the
/// incident has no proposed fix.
pub fn extract_proposed_fix_json(content: &str) -> (r: Option<&str>)
    ensures
        optional_str(r) == proposed_fix(content@),
{
    let cs = chars_of(content);
    let len = cs.len();
    let mark = chars_of("## Proposed fix");
    let opening = chars_of("```json");
    let closing = chars_of("```");
    let heading = match find_at(cs.as_slice(), mark.as_slice(), 0) {
        Some(i) => i,
        None => {
            return None;
        },
    };
    let fence = match find_at(cs.as_slice(), opening.as_slice(), heading) {
        Some(i) => i,
        None => {
            return None;
        },
    };
    let start = fence + opening.len();
    let end = match find_at(cs.as_slice(), closing.as_slice(), start) {
        Some(i) => i,
        None => {
            return None;
        },
    };
    let (a, b) = trim_bounds(cs.as_slice(), start, end);
    if a < b {
        Some(content.substring_char(a, b))
    } else {
        None
    }
}

// ------------------------------------------------------- reading the plan

pub open spec fn category_named(name: Seq<char>) -> Option<FixCategory> {
    if name == "kill_process"@ {
        Some(FixCategory::KillProcess)
    } else if name == "delete_path"@ {
        Some(FixCategory::DeletePath)
    } else if name == "system_setting"@ {
        Some(FixCategory::SystemSetting)
    } else {
        None
    }
}

/// `json` is an object whose only member has that name and is `null`.
pub open spec fn is_tag(json: Json, name: Seq<char>) -> bool {
    json matches Json::Object(m) && m.dom().len() == 1 && m.contains_key(name) && m[name] is Null
}

/// The category that `json` names: by a string, or as the only member of an
/// object.
pub open spec fn category_of(json: Json) -> Option<FixCategory> {
    match json {
        Json::Text(s) => category_named(s),
        _ => if is_tag(json, "kill_process"@) {
            Some(FixCategory::KillProcess)
        } else if is_tag(json, "delete_path"@) {
            Some(FixCategory::DeletePath)
        } else if is_tag(json, "system_setting"@) {
            Some(FixCategory::SystemSetting)
        } else {
            None
        },
    }
}

/// A field of a record of `arity` fields: by its name in an object, by its
/// place in an array.
pub open spec fn record_field(json: Json, name: Seq<char>, place: int, arity: int) -> Option<Json> {
    match json {
        Json::Object(m) => if m.contains_key(name) {
            Some(m[name])
        } else {
            None
        },
        Json::Array(a) => if a.len() == arity {
            Some(a[place])
        } else {
            None
        },
        _ => None,
    }
}

pub open spec fn text_of_json(json: Option<Json>) -> Option<Seq<char>> {
    match json {
        Some(Json::Text(s)) => Some(s),
        _ => None,
    }
}

/// The step that `json` describes.
pub open spec fn step_of(json: Json) -> Option<StepView> {
    match (
        record_field(json, "category"@, 0, 3),
        text_of_json(record_field(json, "description"@, 1, 3)),
        text_of_json(record_field(json, "target_hint"@, 2, 3)),
    ) {
        (Some(c), Some(description), Some(target_hint)) => match category_of(c) {
            Some(category) => Some(StepView { category, description, target_hint }),
            None => None,
        },
        _ => None,
    }
}

/// The steps that the items describe, if every one describes a step.
pub open spec fn steps_of(items: Seq<Json>) -> Option<Seq<StepView>>
    decreases items.len(),
{
    if items.len() == 0 {
        Some(Seq::empty())
    } else {
        match (steps_of(items.drop_last()), step_of(items.last())) {
            (Some(steps), Some(step)) => Some(steps.push(step)),
            _ => None,
        }
    }
}

/// The plan that `json` describes.
pub open spec fn plan_of(json: Json) -> Option<Seq<StepView>> {
    match record_field(json, "plan"@, 0, 1) {
        Some(Json::Array(items)) => steps_of(items),
        _ => None,
    }
}

/// The plan in a text.
pub open spec fn plan_in(text: Seq<char>) -> Option<Seq<StepView>> {
    match json_document(text) {
        Some(json) => plan_of(json),
        None => None,
    }
}

pub(crate) fn field_value<'a>(
    v: &'a serde_json::Value,
    name: &str,
    place: usize,
    arity: usize,
) -> (r: Option<&'a serde_json::Value>)
    requires
        place < arity,
    ensures
        match r {
            Some(f) => record_field(json_of(*v), name@, place as int, arity as int) == Some(
                json_of(*f),
            ),
            None => record_field(json_of(*v), name@, place as int, arity as int) is None,
        },
{
    if let Some(values) = items(v) {
        assert(json_items(values@).len() == values@.len());
        if values.len() == arity {
            assert(json_items(values@)[place as int] == json_of(values@[place as int]));
            Some(&values[place])
        } else {
            None
        }
    } else {
        member(v, name)
    }
}

fn has_tag(v: &serde_json::Value, name: &str) -> (r: bool)
    ensures
        r == is_tag(json_of(*v), name@),
{
    match (member_count(v), member(v, name)) {
        (Some(n), Some(m)) => n == 1 && is_null(m),
        _ => false,
    }
}

fn read_category(v: &serde_json::Value) -> (r: Option<FixCategory>)
    ensures
        r == category_of(json_of(*v)),
{
    if let Some(s) = string(v) {
        if same(s, "kill_process") {
            Some(FixCategory::KillProcess)
        } else if same(s, "delete_path") {
            Some(FixCategory::DeletePath)
        } else if same(s, "system_setting") {
            Some(FixCategory::SystemSetting)
        } else {
            None
        }
    } else if has_tag(v, "kill_process") {
        Some(FixCategory::KillProcess)
    } else if has_tag(v, "delete_path") {
        Some(FixCategory::DeletePath)
    } else if has_tag(v, "system_setting") {
        Some(FixCategory::SystemSetting)
    } else {
        None
    }
}

fn read_text(v: Option<&serde_json::Value>) -> (r: Option<String>)
    ensures
        match r {
            Some(s) => v matches Some(j) && json_of(*j) == Json::Text(s@),
            None => v matches Some(j) ==> !(json_of(*j) is Text),
        },
{
    match v {
        Some(j) => match string(j) {
            Some(s) => Some(s.to_string()),
            None => None,
        },
        None => None,
    }
}

fn read_step(v: &serde_json::Value) -> (r: Option<PlanStep>)
    ensures
        match r {
            Some(s) => step_of(json_of(*v)) == Some(s@),
            None => step_of(json_of(*v)) is None,
        },
{
    let description = read_text(field_value(v, "description", 1, 3));
    let target_hint = read_text(field_value(v, "target_hint", 2, 3));
    match (field_value(v, "category", 0, 3), description, target_hint) {
        (Some(c), Some(description), Some(target_hint)) => match read_category(c) {
            Some(category) => Some(PlanStep { category, description, target_hint }),
            None => None,
        },
        _ => None,
    }
}

proof fn lemma_one_bad_step(items: Seq<Json>, k: int)
    requires
        0 <= k < items.len(),
        step_of(items[k]) is None,
    ensures
        steps_of(items) is None,
    decreases items.len(),
{
    if k < items.len() - 1 {
        lemma_one_bad_step(items.drop_last(), k);
    }
}

/// The plan that a JSON value describes.
pub fn plan_from_value(v: &serde_json::Value) -> (r: Option<Plan>)
    ensures
        match r {
            Some(p) => plan_of(json_of(*v)) == Some(steps_view(p.plan@)),
            None => plan_of(json_of(*v)) is None,
        },
{
    let values = match field_value(v, "plan", 0, 1) {
        Some(list) => match items(list) {
            Some(values) => values,
            None => {
                return None;
            },
        },
        None => {
            return None;
        },
    };
    let ghost all = json_items(values@);
    let mut plan: Vec<PlanStep> = Vec::new();
    let mut i: usize = 0;
    assert(steps_view(plan@) == Seq::<StepView>::empty());
    while i < values.len()
        invariant
            i <= values@.len(),
            all == json_items(values@),
            plan_of(json_of(*v)) == steps_of(all),
            steps_of(all.take(i as int)) == Some(steps_view(plan@)),
        decreases values@.len() - i,
    {
        let ghost had = plan@;
        assert(all.take(i + 1).drop_last() == all.take(i as int));
        assert(all.take(i + 1).last() == json_of(values@[i as int]));
        match read_step(&values[i]) {
            Some(step) => {
                plan.push(step);
                assert(steps_view(plan@) == steps_view(had).push(step@));
            },
            None => {
                proof {
                    lemma_one_bad_step(all, i as int);
                }
                return None;
            },
        }
        i = i + 1;
    }
    assert(all.take(i as int) == all);
    Some(Plan { plan })
}

/// Reads a plan: an object with the member `plan`, a list of steps with a
/// category, a description and a hint at the target. Members with other names
/// are ignored, and of two with the same name the last one counts. A plan made
/// of what [`approved_steps_json`] wrote reads back as those steps.
pub fn parse_plan(json: &str) -> (r: Result<Plan, String>)
    ensures
        match r {
            Ok(p) => plan_in(json@) == Some(steps_view(p.plan@)),
            Err(e) => plan_in(json@) is None && "failed to parse proposed fix plan: "@.is_prefix_of(
                e@,
            ),
        },
        forall|steps: Seq<StepView>|
            json@ == #[trigger] plan_text(steps) ==> (r matches Ok(p) && steps_view(p.plan@)
                == steps),
{
    let mut message = "failed to parse proposed fix plan: ".to_string();
    let ghost start = message@;
    let read = read_json(json);
    proof {
        assert forall|steps: Seq<StepView>| json@ == #[trigger] plan_text(steps) implies plan_in(
            json@,
        ) == Some(steps) by {
            lemma_plan_is_written(steps);
            assert(is_written(json@));
            assert(holds_written(json@, json_of(read->Ok_0)));
            assert(json_of(read->Ok_0) == written_json(plan_document(steps)));
        }
    }
    match read {
        Ok(v) => match plan_from_value(&v) {
            Some(p) => Ok(p),
            None => {
                message.append(
                    "expected an object with a list `plan` of steps, each with a known `category`, a `description` and a `target_hint`",
                );
                assert(message@.subrange(0, start.len() as int) == start);
                Err(message)
            },
        },
        Err(e) => {
            message.append(describe(&e).as_str());
            assert(message@.subrange(0, start.len() as int) == start);
            Err(message)
        },
    }
}

// --------------------------------------------------------------- approval

/// The approved steps, in the order of the plan.
pub open spec fn approved_of<A>(steps: Seq<A>, approved: Seq<bool>) -> Seq<A>
    decreases steps.len(),
{
    if steps.len() == 0 || approved.len() != steps.len() {
        Seq::empty()
    } else if approved.last() {
        approved_of(steps.drop_last(), approved.drop_last()).push(steps.last())
    } else {
        approved_of(steps.drop_last(), approved.drop_last())
    }
}

/// A step in JSON.
pub open spec fn step_json(s: StepView) -> Seq<char> {
    "{\"category\":"@ + json_string(category_name(s.category)) + ",\"description\":"@ + json_string(
        s.description,
    ) + ",\"target_hint\":"@ + json_string(s.target_hint) + "}"@
}

pub open spec fn step_jsons(steps: Seq<StepView>) -> Seq<Seq<char>> {
    steps.map_values(|s: StepView| step_json(s))
}

/// Steps as a JSON array.
pub open spec fn steps_json(steps: Seq<StepView>) -> Seq<char> {
    "["@ + join(step_jsons(steps), ","@) + "]"@
}

/// A plan of those steps in JSON.
pub open spec fn plan_text(steps: Seq<StepView>) -> Seq<char> {
    "{\"plan\":"@ + steps_json(steps) + "}"@
}

/// What a step is written from.
pub open spec fn step_record(s: StepView) -> Seq<(Seq<char>, Scalar)> {
    seq![
        ("category"@, Scalar::Text(category_name(s.category))),
        ("description"@, Scalar::Text(s.description)),
        ("target_hint"@, Scalar::Text(s.target_hint)),
    ]
}

pub open spec fn step_records(steps: Seq<StepView>) -> Seq<Seq<(Seq<char>, Scalar)>> {
    steps.map_values(|s: StepView| step_record(s))
}

/// What a plan is written from.
pub open spec fn plan_document(steps: Seq<StepView>) -> Written {
    Written::Records("plan"@, step_records(steps))
}

proof fn lemma_step_is_written(s: StepView)
    ensures
        has_plain_names(step_record(s)),
        record_text(step_record(s)) == step_json(s),
        step_of(Json::Object(members(step_record(s)))) == Some(s),
{
    reveal_strlit("category");
    reveal_strlit("description");
    reveal_strlit("target_hint");
    reveal_strlit("{");
    reveal_strlit("}");
    reveal_strlit(":");
    reveal_strlit(",");
    reveal_strlit("{\"category\":");
    reveal_strlit(",\"description\":");
    reveal_strlit(",\"target_hint\":");
    lemma_plain_name("category"@);
    lemma_plain_name("description"@);
    lemma_plain_name("target_hint"@);
    law_category_names(s.category, category_name(s.category));
    let record = step_record(s);
    let parts = member_texts(record);
    let name = json_string(category_name(s.category));
    assert(parts[0] == json_string("category"@) + ":"@ + name);
    assert(parts[1] == json_string("description"@) + ":"@ + json_string(s.description));
    assert(parts[2] == json_string("target_hint"@) + ":"@ + json_string(s.target_hint));
    assert(parts.drop_last() == seq![parts[0], parts[1]]);
    assert(seq![parts[0], parts[1]].drop_last() == seq![parts[0]]);
    assert(join(parts, ","@) == parts[0] + ","@ + parts[1] + ","@ + parts[2]) by {
        reveal_with_fuel(join, 4);
    }
    assert("{"@ + (parts[0] + ","@ + parts[1] + ","@ + parts[2]) + "}"@ == step_json(s));
    assert("category"@.len() == 8);
    assert("description"@.len() == 11 && "description"@[0] == 'd');
    assert("target_hint"@.len() == 11 && "target_hint"@[0] == 't');
    assert(record.drop_last() == seq![record[0], record[1]]);
    assert(seq![record[0], record[1]].drop_last() == seq![record[0]]);
    assert(seq![record[0]].drop_last() == Seq::<(Seq<char>, Scalar)>::empty());
    reveal_with_fuel(members, 4);
}

proof fn lemma_steps_read(steps: Seq<StepView>, items: Seq<Json>)
    requires
        items.len() == steps.len(),
        forall|i: int| 0 <= i < items.len() ==> step_of(#[trigger] items[i]) == Some(steps[i]),
    ensures
        steps_of(items) == Some(steps),
    decreases items.len(),
{
    if items.len() > 0 {
        lemma_steps_read(steps.drop_last(), items.drop_last());
        assert(steps == steps.drop_last().push(steps.last()));
    } else {
        assert(steps == Seq::<StepView>::empty());
    }
}

proof fn lemma_plan_is_written(steps: Seq<StepView>)
    ensures
        is_plain(plan_document(steps)),
        written_text(plan_document(steps)) == plan_text(steps),
        plan_of(written_json(plan_document(steps))) == Some(steps),
{
    reveal_strlit("plan");
    reveal_strlit("{");
    reveal_strlit(":");
    reveal_strlit("{\"plan\":");
    lemma_plain_name("plan"@);
    let records = step_records(steps);
    let items = records.map_values(|r: Seq<(Seq<char>, Scalar)>| Json::Object(members(r)));
    assert forall|i: int| 0 <= i < steps.len() implies step_of(#[trigger] items[i]) == Some(
        steps[i],
    ) by {
        lemma_step_is_written(steps[i]);
    }
    assert forall|i: int| 0 <= i < steps.len() implies #[trigger] record_texts(records)[i]
        == step_jsons(steps)[i] by {
        lemma_step_is_written(steps[i]);
    }
    assert forall|i: int| 0 <= i < records.len() implies has_plain_names(#[trigger] records[i]) by {
        lemma_step_is_written(steps[i]);
    }
    assert(record_texts(records) == step_jsons(steps));
    lemma_steps_read(steps, items);
    assert("{"@ + json_string("plan"@) + ":"@ == "{\"plan\":"@);
    assert(written_text(plan_document(steps)) == plan_text(steps));
}

fn write_step(s: &PlanStep) -> (r: String)
    ensures
        r@ == step_json(s@),
{
    let mut r = "{\"category\":".to_string();
    r.append(write_string(s.category.as_str()).as_str());
    r.append(",\"description\":");
    r.append(write_string(s.description.as_str()).as_str());
    r.append(",\"target_hint\":");
    r.append(write_string(s.target_hint.as_str()).as_str());
    r.append("}");
    r
}

/// The approved steps as a JSON array, in the order of the plan: exactly what
/// the agent is handed to execute.
pub fn approved_steps_json(steps: &[PlanStep], approved: &[bool]) -> (r: String)
    requires
        steps@.len() == approved@.len(),
    ensures
        r@ == steps_json(approved_of(steps_view(steps@), approved@)),
{
    let mut parts: Vec<String> = Vec::new();
    let mut i: usize = 0;
    let ghost all = steps_view(steps@);
    assert(texts(parts@) == step_jsons(approved_of(all.take(0), approved@.take(0))));
    while i < steps.len()
        invariant
            i <= steps@.len(),
            steps@.len() == approved@.len(),
            all == steps_view(steps@),
            texts(parts@) == step_jsons(approved_of(all.take(i as int), approved@.take(i as int))),
        decreases steps@.len() - i,
    {
        let ghost had = parts@;
        let ghost kept = approved_of(all.take(i as int), approved@.take(i as int));
        assert(all.take(i + 1).drop_last() == all.take(i as int));
        assert(approved@.take(i + 1).drop_last() == approved@.take(i as int));
        if approved[i] {
            let part = write_step(&steps[i]);
            parts.push(part);
            assert(texts(parts@) == texts(had).push(part@));
            assert(step_jsons(kept.push(all[i as int])) == step_jsons(kept).push(part@));
        }
        i = i + 1;
    }
    assert(all.take(i as int) == all);
    assert(approved@.take(i as int) == approved@);
    let mut r = "[".to_string();
    r.append(joined(&parts, ",").as_str());
    r.append("]");
    r
}

/// The numbers, from 1, of the approved steps.
pub open spec fn approved_numbers(approved: Seq<bool>) -> Seq<Seq<char>>
    decreases approved.len(),
{
    if approved.len() == 0 {
        Seq::empty()
    } else if approved.last() {
        approved_numbers(approved.drop_last()).push(decimal(approved.len()))
    } else {
        approved_numbers(approved.drop_last())
    }
}

/// The line that stands above the report on a fix.
pub open spec fn header_text(approved: Seq<bool>, timestamp: Seq<char>) -> Seq<char> {
    "_Approved: "@ + timestamp + " (steps "@ + join(approved_numbers(approved), ", "@) + " of "@
        + decimal(approved.len()) + ")_"@
}

/// The line that stands above the report on a fix: when it was approved, and
/// which steps, counted from 1 as the prompt counted them.
pub fn approved_header(approved: &[bool], timestamp: &str) -> (r: String)
    ensures
        r@ == header_text(approved@, timestamp@),
{
    let mut numbers: Vec<String> = Vec::new();
    let mut i: usize = 0;
    assert(texts(numbers@) == approved_numbers(approved@.take(0)));
    while i < approved.len()
        invariant
            i <= approved@.len(),
            texts(numbers@) == approved_numbers(approved@.take(i as int)),
        decreases approved@.len() - i,
    {
        let ghost had = numbers@;
        assert(approved@.take(i + 1).drop_last() == approved@.take(i as int));
        if approved[i] {
            let n = decimal_text(i as u128 + 1);
            numbers.push(n);
            assert(texts(numbers@) == texts(had).push(n@));
        }
        i = i + 1;
    }
    assert(approved@.take(i as int) == approved@);
    let mut r = "_Approved: ".to_string();
    r.append(timestamp);
    r.append(" (steps ");
    r.append(joined(&numbers, ", ").as_str());
    r.append(" of ");
    r.append(decimal_text(approved.len() as u128).as_str());
    r.append(")_");
    r
}

// ------------------------------------------------------------------- laws

/// A category's name names that category, and nothing else does.
pub proof fn law_category_names(c: FixCategory, name: Seq<char>)
    ensures
        category_named(category_name(c)) == Some(c),
        category_named(name) == Some(c) <==> name == category_name(c),
{
    reveal_strlit("kill_process");
    reveal_strlit("delete_path");
    reveal_strlit("system_setting");
    assert("kill_process"@.len() == 12);
    assert("delete_path"@.len() == 11);
    assert("system_setting"@.len() == 14);
}

/// Only what was approved is executed: every step that is handed on is one
/// that was approved, and as many are as were.
pub proof fn law_only_approved_steps<A>(steps: Seq<A>, approved: Seq<bool>)
    requires
        steps.len() == approved.len(),
    ensures
        forall|i: int|
            0 <= i < approved_of(steps, approved).len() ==> is_approved(
                steps,
                approved,
                #[trigger] approved_of(steps, approved)[i],
            ),
        forall|k: int|
            0 <= k < steps.len() && approved[k] ==> approved_of(steps, approved).contains(
                #[trigger] steps[k],
            ),
        approved_of(steps, approved).len() == approved.filter(|a: bool| a).len(),
        (forall|k: int| 0 <= k < approved.len() ==> !#[trigger] approved[k]) <==> approved_of(
            steps,
            approved,
        ).len() == 0,
    decreases steps.len(),
{
    reveal(Seq::filter);
    if steps.len() > 0 {
        let less = steps.drop_last();
        let marks = approved.drop_last();
        law_only_approved_steps(less, marks);
        let known = approved_of(less, marks);
        let all = approved_of(steps, approved);
        let last = steps.len() - 1;
        assert forall|i: int| 0 <= i < all.len() implies is_approved(
            steps,
            approved,
            #[trigger] all[i],
        ) by {
            if i < known.len() {
                assert(all[i] == known[i]);
                let k = choose|k: int|
                    0 <= k < less.len() && marks[k] && #[trigger] less[k] == known[i];
                assert(approved[k] && steps[k] == all[i]);
            } else {
                assert(approved[last] && steps[last] == all[i]);
            }
        }
        assert forall|k: int| 0 <= k < steps.len() && approved[k] implies all.contains(
            #[trigger] steps[k],
        ) by {
            if k < last {
                assert(less[k] == steps[k] && marks[k]);
                let i = choose|i: int| 0 <= i < known.len() && known[i] == less[k];
                assert(all[i] == steps[k]);
            } else {
                assert(all[known.len() as int] == steps[k]);
            }
        }
        assert(approved == marks.push(approved.last()));
        if forall|k: int| 0 <= k < approved.len() ==> !#[trigger] approved[k] {
            assert forall|k: int| 0 <= k < marks.len() implies !#[trigger] marks[k] by {
                assert(marks[k] == approved[k]);
            }
            assert(!approved[last]);
        }
        if all.len() == 0 {
            assert(!approved[last]);
            assert forall|k: int| 0 <= k < approved.len() implies !#[trigger] approved[k] by {
                if k < last {
                    assert(marks[k] == approved[k]);
                }
            }
        }
    }
}

/// `step` stands in the plan at a place that was approved.
pub open spec fn is_approved<A>(steps: Seq<A>, approved: Seq<bool>, step: A) -> bool {
    exists|k: int| 0 <= k < steps.len() && approved[k] && #[trigger] steps[k] == step
}

/// The categories are spelled as the agent spells them, each for what it says.
pub proof fn law_category_spelling(name: Seq<char>)
    ensures
        category_named("kill_process"@) == Some(FixCategory::KillProcess),
        category_named("delete_path"@) == Some(FixCategory::DeletePath),
        category_named("system_setting"@) == Some(FixCategory::SystemSetting),
        category_name(FixCategory::KillProcess) == "kill_process"@,
        category_name(FixCategory::DeletePath) == "delete_path"@,
        category_name(FixCategory::SystemSetting) == "system_setting"@,
        category_named(name) is Some <==> name == "kill_process"@ || name == "delete_path"@ || name
            == "system_setting"@,
        category_of(Json::Text(name)) == category_named(name),
{
    law_category_names(FixCategory::KillProcess, name);
    law_category_names(FixCategory::DeletePath, name);
    law_category_names(FixCategory::SystemSetting, name);
}

/// An object is a step exactly when it has a known category, a description and
/// a hint at the target, whatever other members it has; and it is the step
/// that they say.
pub proof fn law_step_members(m: Map<Seq<char>, Json>)
    ensures
        step_of(Json::Object(m)) is Some <==> {
            &&& m.contains_key("category"@) && category_of(m["category"@]) is Some
            &&& m.contains_key("description"@) && m["description"@] is Text
            &&& m.contains_key("target_hint"@) && m["target_hint"@] is Text
        },
        step_of(Json::Object(m)) matches Some(s) ==> {
            &&& category_of(m["category"@]) == Some(s.category)
            &&& m["description"@] == Json::Text(s.description)
            &&& m["target_hint"@] == Json::Text(s.target_hint)
        },
{
}

proof fn lemma_all_steps(items: Seq<Json>)
    ensures
        steps_of(items) is Some <==> forall|i: int|
            0 <= i < items.len() ==> step_of(#[trigger] items[i]) is Some,
        steps_of(items) matches Some(steps) ==> steps.len() == items.len() && forall|i: int|
            0 <= i < items.len() ==> step_of(#[trigger] items[i]) == Some(steps[i]),
    decreases items.len(),
{
    if items.len() > 0 {
        let less = items.drop_last();
        let last = items.len() - 1;
        lemma_all_steps(less);
        if steps_of(items) is Some {
            assert forall|i: int| 0 <= i < items.len() implies step_of(#[trigger] items[i])
                == Some(steps_of(items)->0[i]) by {
                if i < last {
                    assert(less[i] == items[i]);
                }
            }
        }
        if forall|i: int| 0 <= i < items.len() ==> step_of(#[trigger] items[i]) is Some {
            assert forall|i: int| 0 <= i < less.len() implies step_of(#[trigger] less[i]) is Some by {
                assert(less[i] == items[i]);
            }
            assert(step_of(items[last]) is Some);
        }
    }
}

/// An object is a plan exactly when its member `plan` is a list of steps and of
/// nothing else; its steps are those of the list, all of them in their order.
pub proof fn law_plan_members(m: Map<Seq<char>, Json>)
    ensures
        plan_of(Json::Object(m)) is Some <==> m.contains_key("plan"@) && (m["plan"@]
            matches Json::Array(items) && forall|i: int|
            0 <= i < items.len() ==> step_of(#[trigger] items[i]) is Some),
        plan_of(Json::Object(m)) matches Some(steps) ==> {
            &&& m["plan"@] is Array
            &&& steps.len() == m["plan"@]->Array_0.len()
            &&& forall|i: int|
                0 <= i < steps.len() ==> step_of(m["plan"@]->Array_0[i]) == Some(
                    #[trigger] steps[i],
                )
        },
{
    if m.contains_key("plan"@) {
        if let Json::Array(items) = m["plan"@] {
            lemma_all_steps(items);
        }
    }
}

/// The steps that are handed on stand in the order of the plan: one more step
/// comes last where it is approved and changes nothing where it is not.
pub proof fn law_approval_is_stepwise<A>(
    steps: Seq<A>,
    approved: Seq<bool>,
    step: A,
    yes: bool,
)
    requires
        steps.len() == approved.len(),
    ensures
        approved_of(Seq::<A>::empty(), Seq::<bool>::empty()).len() == 0,
        yes ==> approved_of(steps.push(step), approved.push(yes)) == approved_of(
            steps,
            approved,
        ).push(step),
        !yes ==> approved_of(steps.push(step), approved.push(yes)) == approved_of(steps, approved),
{
    assert(steps.push(step).drop_last() == steps);
    assert(approved.push(yes).drop_last() == approved);
}

/// The report names the steps that were approved by their place in the plan,
/// counted from one, and no others.
pub proof fn law_approved_steps_are_numbered(approved: Seq<bool>, yes: bool)
    ensures
        approved_numbers(Seq::<bool>::empty()).len() == 0,
        yes ==> approved_numbers(approved.push(yes)) == approved_numbers(approved).push(
            decimal(approved.len() + 1),
        ),
        !yes ==> approved_numbers(approved.push(yes)) == approved_numbers(approved),
{
    assert(approved.push(yes).drop_last() == approved);
}

/// Without the heading, without a block of JSON behind it, or with one that is
/// not closed, there is no proposed fix.
pub proof fn law_no_fix_without_a_block(content: Seq<char>)
    ensures
        !contains(content, "## Proposed fix"@) ==> proposed_fix(content) is None,
        !contains(content, "```json"@) ==> proposed_fix(content) is None,
        proposed_fix(content) matches Some(json) ==> json.len() > 0 && contains(content, json),
{
    law_search_finds_the_first(content, "## Proposed fix"@, 0);
    if find(content, "## Proposed fix"@) is Some {
        let heading = find(content, "## Proposed fix"@)->0;
        law_search_finds_the_first(content, "```json"@, heading);
        if find_from(content, "```json"@, heading) is Some {
            let fence = find_from(content, "```json"@, heading)->0;
            let start = fence + "```json"@.len();
            law_search_finds_the_first(content, "```"@, start);
            if find_from(content, "```"@, start) is Some {
                let end = find_from(content, "```"@, start)->0;
                let part = content.subrange(start, end);
                lemma_trim_part(part);
                let json = trim(part);
                let at = choose|at: int| spelled_at(part, json, at);
                assert(spelled_at(content, json, start + at)) by {
                    assert forall|k: int| 0 <= k < json.len() implies content[start + at + k]
                        == #[trigger] json[k] by {
                        assert(part[at + k] == json[k]);
                    }
                }
                law_search_finds_the_first(content, json, 0);
            }
        }
    }
}

/// A step can be written as a list of its three fields in their order, and a
/// category as an object with its name for its only member, which is null.
pub proof fn law_short_forms(a: Seq<Json>, m: Map<Seq<char>, Json>)
    ensures
        a.len() != 3 ==> step_of(Json::Array(a)) is None,
        a.len() == 3 ==> (step_of(Json::Array(a)) is Some <==> category_of(a[0]) is Some && a[1]
            is Text && a[2] is Text),
        step_of(Json::Array(a)) matches Some(s) ==> category_of(a[0]) == Some(s.category) && a[1]
            == Json::Text(s.description) && a[2] == Json::Text(s.target_hint),
        category_of(Json::Object(m)) is Some ==> m.dom().len() == 1,
        m.dom().len() == 1 && m.contains_key("kill_process"@) && m["kill_process"@] is Null
            ==> category_of(Json::Object(m)) == Some(FixCategory::KillProcess),
{
}

/// A category's object is taken by the name of its member, and a value that is
/// neither a text nor an object is no category.
pub proof fn law_category_forms(m: Map<Seq<char>, Json>, other: Json)
    ensures
        m.dom().len() == 1 && m.contains_key("delete_path"@) && m["delete_path"@] is Null
            && !m.contains_key("kill_process"@) ==> category_of(Json::Object(m)) == Some(
            FixCategory::DeletePath,
        ),
        m.dom().len() == 1 && m.contains_key("system_setting"@) && m["system_setting"@] is Null
            && !m.contains_key("kill_process"@) && !m.contains_key("delete_path"@) ==> category_of(
            Json::Object(m),
        ) == Some(FixCategory::SystemSetting),
        !(other is Text) && !(other is Object) ==> category_of(other) is None,
        !m.contains_key("kill_process"@) && !m.contains_key("delete_path"@) && !m.contains_key(
            "system_setting"@,
        ) ==> category_of(Json::Object(m)) is None,
{
}

/// A plan can be written as a list with the list of its steps for its only
/// item; anything that is neither that nor an object is no plan.
pub proof fn law_plan_forms(a: Seq<Json>, other: Json)
    ensures
        a.len() != 1 ==> plan_of(Json::Array(a)) is None,
        a.len() == 1 ==> plan_of(Json::Array(a)) == (match a[0] {
            Json::Array(items) => steps_of(items),
            _ => None,
        }),
        !(other is Array) && !(other is Object) ==> plan_of(other) is None && step_of(other)
            is None,
{
}

/// The report on a fix is headed by when it was approved and which steps of how
/// many were.
pub proof fn law_report_heading(approved: Seq<bool>, timestamp: Seq<char>)
    ensures
        header_text(approved, timestamp) == "_Approved: "@ + timestamp + " (steps "@ + join(
            approved_numbers(approved),
            ", "@,
        ) + " of "@ + decimal(approved.len()) + ")_"@,
{
}

} // verus!
