//! What `vigil fix` decides: what it reads in an incident file, what it asks
//! about each step and what it takes for a yes, what it hands to the agent,
//! and what it keeps of the agent's report.
use crate::fixplan::{
    approved_header, approved_of, approved_steps_json, category_name, extract_proposed_fix_json, header_text,
    parse_plan, plan_in, proposed_fix, steps_json, steps_view, Plan, PlanStep, StepView,
};
use crate::number::{decimal, push_decimal};
use crate::text::{chars_of, is_at, is_white, lines, lower, lowered, to_lower, trim, trim_bounds};
use crate::alert_laws::mentions;
use crate::text_laws::law_lower_case;
use vstd::prelude::*;
use vstd::string::StringExecFns;

verus! {

/// The plan that an incident file proposes, or why there is none to execute.
/// `path` is what the file is called in a message.
pub fn read_plan(path: &str, content: &str) -> (r: Result<Plan, String>)
    ensures
        match r {
            Ok(p) => proposed_fix(content@) matches Some(json) && plan_in(json) == Some(
                steps_view(p.plan@),
            ),
            Err(e) => match proposed_fix(content@) {
                Some(json) => plan_in(json) is None
                    && "failed to parse proposed fix plan: "@.is_prefix_of(e@),
                None => e@ == path@
                    + " has no proposed fix — run `vigil investigate` first, or this incident didn't produce one"@,
            },
        },
{
    match extract_proposed_fix_json(content) {
        Some(json) => parse_plan(json),
        None => {
            let mut e = path.to_string();
            e.append(
                " has no proposed fix — run `vigil investigate` first, or this incident didn't produce one",
            );
            Err(e)
        },
    }
}

/// The question about a step, the `i`th of `total`.
pub open spec fn prompt_text(i: nat, total: nat, step: StepView) -> Seq<char> {
    "["@ + decimal(i) + "/"@ + decimal(total) + "] "@ + category_name(step.category) + " — "@
        + step.description + "\n    target: "@ + step.target_hint + "\nApprove? [y/N] "@
}

/// The question about the step at `i`, out of `total`.
pub fn prompt(i: usize, total: usize, step: &PlanStep) -> (r: String)
    ensures
        r@ == prompt_text(i as nat + 1, total as nat, step@),
{
    let mut r = "[".to_string();
    push_decimal(&mut r, i as u128 + 1);
    r.append("/");
    push_decimal(&mut r, total as u128);
    r.append("] ");
    r.append(step.category.as_str());
    r.append(" — ");
    r.append(step.description.as_str());
    r.append("\n    target: ");
    r.append(step.target_hint.as_str());
    r.append("\nApprove? [y/N] ");
    r
}

/// The line is a yes: `y` or `yes` in any case, white space aside. Everything
/// else, an empty line too, is a no.
pub open spec fn approves(line: Seq<char>) -> bool {
    lowered(trim(line)) == "y"@ || lowered(trim(line)) == "yes"@
}

/// Whether the line that the user typed approves the step.
pub fn is_approval(line: &str) -> (r: bool)
    ensures
        r == approves(line@),
{
    let cs = chars_of(line);
    let n = cs.len();
    assert(cs@.subrange(0, n as int) == cs@);
    let (a, b) = trim_bounds(cs.as_slice(), 0, n);
    let ghost answer = trim(line@);
    let mut low: Vec<char> = Vec::new();
    let mut i: usize = a;
    while i < b
        invariant
            a <= i <= b <= cs@.len(),
            answer == cs@.subrange(a as int, b as int),
            low@ == lowered(answer.take(i - a)),
        decreases b - i,
    {
        low.push(to_lower(cs[i]));
        assert(answer[i - a] == cs@[i as int]);
        assert(low@ == lowered(answer.take(i - a + 1)));
        i = i + 1;
    }
    assert(answer.take(i - a) == answer);
    let y = chars_of("y");
    let yes = chars_of("yes");
    assert(low@.subrange(0, low@.len() as int) == low@);
    is_at(low.as_slice(), 0, low.len(), y.as_slice()) || is_at(
        low.as_slice(),
        0,
        low.len(),
        yes.as_slice(),
    )
}

/// What to hand to the agent: the approved steps, or nothing where none was
/// approved.
pub fn plan_to_execute(steps: &[PlanStep], approved: &[bool]) -> (r: Option<String>)
    requires
        steps@.len() == approved@.len(),
    ensures
        match r {
            Some(json) => approved@.contains(true) && json@ == steps_json(
                approved_of(steps_view(steps@), approved@),
            ),
            None => !approved@.contains(true),
        },
{
    let mut i: usize = 0;
    while i < approved.len()
        invariant
            i <= approved@.len(),
            steps@.len() == approved@.len(),
            forall|j: int| 0 <= j < i ==> !#[trigger] approved@[j],
        decreases approved@.len() - i,
    {
        if approved[i] {
            assert(approved@[i as int]);
            return Some(approved_steps_json(steps, approved));
        }
        i = i + 1;
    }
    None
}

/// What is kept of a fix that was carried out: when and which steps were
/// approved, and the agent's report.
pub fn journal_entry(approved: &[bool], timestamp: &str, report: &str) -> (r: String)
    ensures
        r@ == header_text(approved@, timestamp@) + "\n\n"@ + report@,
{
    let mut r = approved_header(approved, timestamp);
    r.append("\n\n");
    r.append(report);
    r
}

/// The two answers that the desktop window gives, line by line.
pub(crate) proof fn lemma_answers(yes: bool)
    ensures
        ({
            let line = if yes {
                "y\n"@
            } else {
                "N\n"@
            };
            &&& lines(line).len() == 1
            &&& approves(lines(line)[0]) == yes
        }),
{
    reveal_strlit("y\n");
    reveal_strlit("N\n");
    reveal_strlit("y");
    reveal_strlit("yes");
    let c = if yes {
        'y'
    } else {
        'N'
    };
    let line = if yes {
        "y\n"@
    } else {
        "N\n"@
    };
    let s = seq![c];
    assert(line =~= s + seq!['\n'] + Seq::<char>::empty());
    crate::journal_laws::lemma_first_line(s, Seq::<char>::empty());
    assert(lines(Seq::<char>::empty()) == Seq::<Seq<char>>::empty());
    assert(lines(line) == seq![s]);
    assert(!is_white(c));
    crate::journal_laws::lemma_trim_tight(s);
    assert(lowered(s) =~= seq![lower(c)]);
    if yes {
        assert(seq![lower(c)] =~= "y"@);
    } else {
        assert(lower('N') == 'n');
        assert(lowered(s)[0] == 'n');
        assert("y"@[0] == 'y' && "yes"@[0] == 'y');
    }
}

/// Only a line that spells yes approves: a blank one does not.
pub proof fn law_silence_is_no(line: Seq<char>)
    requires
        trim(line).len() == 0,
    ensures
        !approves(line),
{
    reveal_strlit("y");
    reveal_strlit("yes");
    assert(lowered(trim(line)).len() == 0);
}

/// A step is approved by `y` or `yes`, in any case and with white space around
/// it, and by nothing else.
pub proof fn law_approval(line: Seq<char>)
    ensures
        ({
            let w = trim(line);
            approves(line) <==> (w.len() == 1 && (w[0] == 'y' || w[0] == 'Y')) || (w.len() == 3 && (
            w[0] == 'y' || w[0] == 'Y') && (w[1] == 'e' || w[1] == 'E') && (w[2] == 's' || w[2]
                == 'S'))
        }),
{
    reveal_strlit("y");
    reveal_strlit("yes");
    let w = trim(line);
    let l = lowered(w);
    assert forall|i: int| 0 <= i < w.len() implies #[trigger] l[i] == lower(w[i]) by {}
    if w.len() == 1 {
        law_lower_case(w[0]);
        assert(l[0] == lower(w[0]));
        if l[0] == 'y' {
            assert(l =~= "y"@);
        }
    }
    if w.len() == 3 {
        law_lower_case(w[0]);
        law_lower_case(w[1]);
        law_lower_case(w[2]);
        assert(l[0] == lower(w[0]) && l[1] == lower(w[1]) && l[2] == lower(w[2]));
        if l[0] == 'y' && l[1] == 'e' && l[2] == 's' {
            assert(l =~= "yes"@);
        }
    }
    assert(l.len() == w.len());
}

/// The prompt says which of how many steps it is about, what kind of step that
/// is, what it does and to what.
pub proof fn law_prompt(i: nat, total: nat, step: StepView)
    ensures
        mentions(prompt_text(i, total, step), "["@ + decimal(i) + "/"@ + decimal(total) + "]"@),
        mentions(prompt_text(i, total, step), category_name(step.category)),
        mentions(prompt_text(i, total, step), step.description),
        mentions(prompt_text(i, total, step), step.target_hint),
{
    let t = prompt_text(i, total, step);
    let head = "["@ + decimal(i) + "/"@ + decimal(total);
    let kind = category_name(step.category);
    let ask = "\nApprove? [y/N] "@;
    let target = "\n    target: "@;
    assert("] "@ =~= "]"@ + " "@) by {
        reveal_strlit("] ");
        reveal_strlit("]");
        reveal_strlit(" ");
    }
    assert(t =~= Seq::<char>::empty() + (head + "]"@) + (" "@ + kind + " — "@ + step.description
        + target + step.target_hint + ask));
    assert(t =~= (head + "] "@) + kind + (" — "@ + step.description + target + step.target_hint
        + ask));
    assert(t =~= (head + "] "@ + kind + " — "@) + step.description + (target + step.target_hint
        + ask));
}

} // verus!
