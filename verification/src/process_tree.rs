//! The live processes that belong to an incident.
//!
//! They are looked at afresh each time, not taken from the agent's prose,
//! which is written for people to read, nor from the snapshot of when the
//! alert fired, which can be stale by now.
use crate::number::{number_at, parse_number, Fixed};
use crate::snapshot_laws::{lemma_places, places};
use crate::text::{chars_of, has_prefix, same, text_of};
use crate::text_laws::{law_number_reading, spelled_at};
use vstd::prelude::*;

verus! {

#[derive(Debug, PartialEq)]
pub struct ProcessNode {
    pub pid: u32,
    pub ppid: Option<u32>,
    pub name: String,
    /// Share of one processor, in percent.
    pub cpu_pct: Fixed,
    pub mem_bytes: u64,
    pub run_time_secs: u64,
    pub is_zombie: bool,
}

impl Clone for ProcessNode {
    fn clone(&self) -> (r: Self)
        ensures
            r == *self,
    {
        ProcessNode {
            pid: self.pid,
            ppid: self.ppid,
            name: self.name.clone(),
            cpu_pct: self.cpu_pct,
            mem_bytes: self.mem_bytes,
            run_time_secs: self.run_time_secs,
            is_zombie: self.is_zombie,
        }
    }
}

/// Which processes an incident is about. Where the alert is about the machine
/// as a whole there is nothing to show, rather than every process there is.
#[derive(Debug, PartialEq)]
pub enum Scope {
    Pid(u32),
    Name(String),
    Nothing,
}

/// What a scope says.
pub enum ScopeView {
    Pid(u32),
    Name(Seq<char>),
    Nothing,
}

impl View for Scope {
    type V = ScopeView;

    open spec fn view(&self) -> ScopeView {
        match self {
            Scope::Pid(pid) => ScopeView::Pid(*pid),
            Scope::Name(name) => ScopeView::Name(name@),
            Scope::Nothing => ScopeView::Nothing,
        }
    }
}

/// The pid in a key of the form `cpu_hog:<pid>`.
pub open spec fn hog_pid(key: Seq<char>) -> Option<nat> {
    if "cpu_hog:"@.is_prefix_of(key) {
        parse_number(key.skip("cpu_hog:"@.len() as int), u32::MAX as nat)
    } else {
        None
    }
}

/// The scope of an alert, by the form of its key.
pub open spec fn scope_of(key: Seq<char>) -> ScopeView {
    if hog_pid(key) is Some {
        ScopeView::Pid(hog_pid(key)->0 as u32)
    } else if "high_process_count:"@.is_prefix_of(key) && key.len()
        > "high_process_count:"@.len() {
        ScopeView::Name(key.skip("high_process_count:"@.len() as int))
    } else {
        ScopeView::Nothing
    }
}

/// The scope of an alert: `cpu_hog:<pid>` is about a process,
/// `high_process_count:<name>` about every process of a name.
pub fn scope_for_alert_key(alert_key: &str) -> (r: Scope)
    ensures
        r@ == scope_of(alert_key@),
{
    let cs = chars_of(alert_key);
    let n = cs.len();
    let hog = chars_of("cpu_hog:");
    let count = chars_of("high_process_count:");
    assert(cs@.subrange(0, n as int) == cs@);
    if has_prefix(cs.as_slice(), 0, n, hog.as_slice()) {
        assert(cs@.subrange(hog@.len() as int, n as int) == alert_key@.skip(hog@.len() as int));
        if let Some(pid) = number_at(cs.as_slice(), hog.len(), n, u32::MAX as u64) {
            return Scope::Pid(pid as u32);
        }
    }
    if has_prefix(cs.as_slice(), 0, n, count.as_slice()) && n > count.len() {
        assert(cs@.subrange(count@.len() as int, n as int) == alert_key@.skip(
            count@.len() as int,
        ));
        return Scope::Name(text_of(cs.as_slice(), count.len(), n));
    }
    Scope::Nothing
}

/// The process is in the scope: it is the one meant or its child, or has the
/// name.
pub open spec fn in_scope(scope: ScopeView) -> spec_fn(ProcessNode) -> bool {
    |p: ProcessNode|
        match scope {
            ScopeView::Pid(target) => p.pid == target || p.ppid == Some(target),
            ScopeView::Name(name) => p.name@ == name,
            ScopeView::Nothing => false,
        }
}

fn is_in_scope(p: &ProcessNode, scope: &Scope) -> (r: bool)
    ensures
        r == in_scope(scope@)(*p),
{
    match scope {
        Scope::Pid(target) => p.pid == *target || match p.ppid {
            Some(parent) => parent == *target,
            None => false,
        },
        Scope::Name(name) => same(p.name.as_str(), name.as_str()),
        Scope::Nothing => false,
    }
}

/// The processes in the scope, out of all that run.
pub fn query_process_tree(procs: &Vec<ProcessNode>, scope: &Scope) -> (r: Vec<ProcessNode>)
    ensures
        r@ == procs@.filter(in_scope(scope@)),
{
    let mut r: Vec<ProcessNode> = Vec::new();
    let mut i: usize = 0;
    proof {
        reveal(Seq::filter);
        assert(procs@.take(0) == Seq::<ProcessNode>::empty());
    }
    while i < procs.len()
        invariant
            i <= procs@.len(),
            r@ == procs@.take(i as int).filter(in_scope(scope@)),
        decreases procs@.len() - i,
    {
        proof {
            procs@.take(i as int).lemma_filter_push(procs@[i as int], in_scope(scope@));
            assert(procs@.take(i + 1) == procs@.take(i as int).push(procs@[i as int]));
        }
        if is_in_scope(&procs[i], scope) {
            r.push(procs[i].clone());
        }
        i = i + 1;
    }
    assert(procs@.take(i as int) == procs@);
    r
}

/// The key of an alert about a process leads back to that process.
pub proof fn law_hog_key_names_its_pid(pid: u32)
    ensures
        scope_of("cpu_hog:"@ + crate::number::decimal(pid as nat)) == ScopeView::Pid(pid),
{
    let digits = crate::number::decimal(pid as nat);
    let key = "cpu_hog:"@ + digits;
    crate::number::law_decimal_reads_back(pid as nat);
    assert(key.subrange(0, "cpu_hog:"@.len() as int) == "cpu_hog:"@);
    assert(key.skip("cpu_hog:"@.len() as int) == digits);
}

/// The key of an alert about a group leads back to that group.
pub proof fn law_count_key_names_its_group(name: Seq<char>)
    requires
        name.len() > 0,
    ensures
        scope_of("high_process_count:"@ + name) == ScopeView::Name(name),
{
    let key = "high_process_count:"@ + name;
    reveal_strlit("high_process_count:");
    reveal_strlit("cpu_hog:");
    assert(key.subrange(0, "high_process_count:"@.len() as int) == "high_process_count:"@);
    assert(key.skip("high_process_count:"@.len() as int) == name);
    assert(!"cpu_hog:"@.is_prefix_of(key)) by {
        if "cpu_hog:"@.is_prefix_of(key) {
            assert(key.subrange(0, "cpu_hog:"@.len() as int)[0] == key[0]);
            assert(key[0] == 'h');
        }
    }
}

/// A filter keeps, as often as they occur, exactly the items it is for.
proof fn lemma_filtered(procs: Seq<ProcessNode>, p: spec_fn(ProcessNode) -> bool)
    ensures
        procs.filter(p).len() == places(procs, p).len(),
        forall|i: int| 0 <= i < procs.filter(p).len() ==> p(#[trigger] procs.filter(p)[i]),
        forall|k: int|
            0 <= k < procs.len() && p(#[trigger] procs[k]) ==> procs.filter(p).contains(procs[k]),
{
    broadcast use {Seq::lemma_filter_pred, Seq::lemma_filter_contains};

    lemma_places(procs, p);
}

/// An incident about a process shows that process and its direct children,
/// every one of them whatever else is true of it, and nothing else.
pub proof fn law_process_and_children(procs: Seq<ProcessNode>, target: u32)
    ensures
        ({
            let shown = procs.filter(in_scope(ScopeView::Pid(target)));
            &&& forall|k: int|
                0 <= k < procs.len() && (#[trigger] procs[k]).pid == target ==> shown.contains(
                    procs[k],
                )
            &&& forall|k: int|
                0 <= k < procs.len() && (#[trigger] procs[k]).ppid == Some(target)
                    ==> shown.contains(procs[k])
            &&& forall|i: int|
                0 <= i < shown.len() ==> (#[trigger] shown[i]).pid == target || shown[i].ppid
                    == Some(target)
            &&& shown.len() == places(
                procs,
                |p: ProcessNode| p.pid == target || p.ppid == Some(target),
            ).len()
        }),
{
    let mine = |p: ProcessNode| p.pid == target || p.ppid == Some(target);
    assert(in_scope(ScopeView::Pid(target)) =~= mine);
    lemma_filtered(procs, mine);
}

/// An incident about a name shows every process of that name and nothing
/// else; one about the machine as a whole shows nothing.
pub proof fn law_processes_of_a_name(procs: Seq<ProcessNode>, name: Seq<char>)
    ensures
        ({
            let shown = procs.filter(in_scope(ScopeView::Name(name)));
            &&& forall|k: int|
                0 <= k < procs.len() && (#[trigger] procs[k]).name@ == name ==> shown.contains(
                    procs[k],
                )
            &&& forall|i: int| 0 <= i < shown.len() ==> (#[trigger] shown[i]).name@ == name
            &&& shown.len() == places(procs, |p: ProcessNode| p.name@ == name).len()
        }),
        procs.filter(in_scope(ScopeView::Nothing)).len() == 0,
{
    let mine = |p: ProcessNode| p.name@ == name;
    assert(in_scope(ScopeView::Name(name)) =~= mine);
    lemma_filtered(procs, mine);
    lemma_filtered(procs, in_scope(ScopeView::Nothing));
    assert(places(procs, in_scope(ScopeView::Nothing)) =~= Set::<int>::empty());
}

/// A key that starts neither with `cpu_hog:` nor with `high_process_count:`
/// is about no process in particular, and neither is one with no number behind
/// the first or no name behind the second.
pub proof fn law_other_keys_have_no_scope(key: Seq<char>)
    ensures
        !spelled_at(key, "cpu_hog:"@, 0) && !spelled_at(key, "high_process_count:"@, 0)
            ==> scope_of(key) is Nothing,
        spelled_at(key, "cpu_hog:"@, 0) && key.len() > 8 && !('0' <= key.last() && key.last()
            <= '9') ==> scope_of(key) is Nothing,
        scope_of("cpu_hog:"@) is Nothing,
        scope_of("high_process_count:"@) is Nothing,
{
    reveal_strlit("cpu_hog:");
    reveal_strlit("high_process_count:");
    let hog = "cpu_hog:"@;
    let count = "high_process_count:"@;
    assert(hog.len() == 8 && count.len() == 19);
    lemma_prefix(key, hog);
    lemma_prefix(key, count);
    lemma_prefix(hog, count);
    lemma_prefix(count, hog);
    lemma_prefix(hog, hog);
    if spelled_at(key, hog, 0) && key.len() > 8 && !('0' <= key.last() && key.last() <= '9') {
        let rest = key.skip(8);
        assert(rest.last() == key.last());
        law_number_reading(rest, u32::MAX as nat);
        assert(rest[rest.len() - 1] == key.last());
        if rest.len() == 1 && rest[0] == '+' {
            assert(rest.skip(1).len() == 0);
        }
        assert(parse_number(rest, u32::MAX as nat) is None);
        if spelled_at(key, count, 0) {
            assert(key[0] == hog[0] && key[0] == count[0]);
        }
    }
    assert(hog.skip(8) =~= Seq::<char>::empty());
    assert(count[0] == 'h' && hog[0] == 'c');
}

pub(crate) proof fn lemma_prefix(s: Seq<char>, p: Seq<char>)
    ensures
        p.is_prefix_of(s) <==> spelled_at(s, p, 0),
{
    if p.len() <= s.len() {
        let start = s.subrange(0, p.len() as int);
        if start == p {
            assert forall|k: int| 0 <= k < p.len() implies s[0 + k] == #[trigger] p[k] by {
                assert(start[k] == s[k]);
            }
        }
        if spelled_at(s, p, 0) {
            assert forall|k: int| 0 <= k < p.len() implies start[k] == p[k] by {
                assert(s[0 + k] == p[k]);
            }
            assert(start =~= p);
        }
    }
}

} // verus!
