//! The desktop window that shows an incident: what it is asked to show, and
//! when it may.
use crate::alerts::optional_str;
use crate::incidents::{extract_rule_message, field};
use crate::json::{describe, json_in_bytes, json_of, read_json_bytes};
use crate::paths::{join_path, path_join};
use crate::stamps::Stamps;
use crate::text::{chars_of, contains, contains_text, has_prefix, same, text_of, trimmed, trim};
use crate::url::{decode, encode, law_encoding_reads_back, url_decoded, url_encoded};
use crate::process_tree::lemma_prefix;
use crate::text_laws::{law_search_finds_the_first, spelled_at};
use vstd::prelude::*;
use vstd::string::StringExecFns;

verus! {

// ------------------------------------------------------------------- URLs

/// The path in a URL of the form `vigil://incident/<path>`.
pub open spec fn incident_path(url: Seq<char>) -> Option<Seq<char>> {
    if "vigil://incident/"@.is_prefix_of(url) {
        url_decoded(url.skip("vigil://incident/"@.len() as int))
    } else {
        None
    }
}

/// The path in a URL of the form `vigil://incident/<path>`, decoded. `None`
/// for anything else.
pub fn parse_incident_url(url: &str) -> (r: Option<String>)
    ensures
        match r {
            Some(p) => incident_path(url@) == Some(p@),
            None => incident_path(url@) is None,
        },
{
    let cs = chars_of(url);
    let n = cs.len();
    let mark = chars_of("vigil://incident/");
    assert(cs@.subrange(0, n as int) == cs@);
    if has_prefix(cs.as_slice(), 0, n, mark.as_slice()) {
        let rest = text_of(cs.as_slice(), mark.len(), n);
        assert(rest@ == url@.skip(mark@.len() as int));
        decode(rest.as_str())
    } else {
        None
    }
}

/// The URL of an incident file.
pub open spec fn incident_url_text(path: Seq<char>) -> Seq<char> {
    "vigil://incident/"@ + url_encoded(path)
}

/// The URL of an incident file leads back to its path.
pub proof fn law_incident_url_reads_back(path: Seq<char>)
    ensures
        incident_path(incident_url_text(path)) == Some(path),
{
    let url = incident_url_text(path);
    let n = "vigil://incident/"@.len() as int;
    law_encoding_reads_back(path);
    assert(url.subrange(0, n) == "vigil://incident/"@);
    assert(url.skip(n) == url_encoded(path));
}

/// The page that shows an incident file.
pub fn page_url(path: &str) -> (r: String)
    ensures
        r@ == "index.html?path="@ + url_encoded(path@),
{
    let mut r = "index.html?path=".to_string();
    r.append(encode(path).as_str());
    r
}

/// The script that brings the window to the page of an incident file.
pub fn navigation_script(path: &str) -> (r: String)
    ensures
        r@ == "window.location.replace('"@ + ("index.html?path="@ + url_encoded(path@)) + "')"@,
{
    let mut r = "window.location.replace('".to_string();
    r.append(page_url(path).as_str());
    r.append("')");
    r
}

/// The first argument that is the URL of an incident.
pub open spec fn first_incident(args: Seq<Seq<char>>) -> Option<Seq<char>>
    decreases args.len(),
{
    if args.len() == 0 {
        None
    } else if incident_path(args[0]) is Some {
        incident_path(args[0])
    } else {
        first_incident(args.skip(1))
    }
}

/// The incident that a second start of the program asks for.
pub fn incident_in_args(args: &Vec<String>) -> (r: Option<String>)
    ensures
        match r {
            Some(p) => first_incident(crate::text::texts(args@)) == Some(p@),
            None => first_incident(crate::text::texts(args@)) is None,
        },
{
    let ghost all = crate::text::texts(args@);
    let mut i: usize = 0;
    assert(all.skip(0) == all);
    while i < args.len()
        invariant
            i <= args@.len(),
            all == crate::text::texts(args@),
            first_incident(all) == first_incident(all.skip(i as int)),
        decreases args@.len() - i,
    {
        assert(all.skip(i as int)[0] == args@[i as int]@);
        assert(all.skip(i as int).skip(1) == all.skip(i + 1));
        if let Some(p) = parse_incident_url(args[i].as_str()) {
            return Some(p);
        }
        i = i + 1;
    }
    None
}

// -------------------------------------------------------------- readiness

/// A request to show an incident, and whether to bring the window forward.
#[derive(Debug, PartialEq)]
pub struct Navigation {
    pub path: String,
    pub focus: bool,
}

impl View for Navigation {
    type V = (Seq<char>, bool);

    open spec fn view(&self) -> (Seq<char>, bool) {
        (self.path@, self.focus)
    }
}

/// The view of a request, where there is one.
pub open spec fn request(n: Option<Navigation>) -> Option<(Seq<char>, bool)> {
    match n {
        Some(n) => Some(n@),
        None => None,
    }
}

/// Whether the window has loaded its first page, and what it was asked to
/// show before that. A request that comes too early is kept until then; of
/// several, the last.
pub struct WindowReady {
    pub ready: bool,
    pub pending: Option<Navigation>,
}

/// What is known of a window: whether it has loaded its first page, and what
/// it is to show then.
pub struct WindowState {
    pub ready: bool,
    pub pending: Option<(Seq<char>, bool)>,
}

impl WindowState {
    /// The state behind a request.
    pub open spec fn asked(self, n: (Seq<char>, bool)) -> Self {
        if self.ready {
            self
        } else {
            WindowState { ready: false, pending: Some(n) }
        }
    }

    /// What is shown on a request.
    pub open spec fn shown_on_request(self, n: (Seq<char>, bool)) -> Option<(Seq<char>, bool)> {
        if self.ready {
            Some(n)
        } else {
            None
        }
    }

    /// The state behind a page that has loaded.
    pub open spec fn loaded(self) -> Self {
        if self.ready {
            self
        } else {
            WindowState { ready: true, pending: None }
        }
    }

    /// What is shown once a page has loaded.
    pub open spec fn shown_on_load(self) -> Option<(Seq<char>, bool)> {
        if self.ready {
            None
        } else {
            self.pending
        }
    }
}

impl View for WindowReady {
    type V = WindowState;

    open spec fn view(&self) -> WindowState {
        WindowState { ready: self.ready, pending: request(self.pending) }
    }
}

impl WindowReady {
    pub fn new() -> (r: Self)
        ensures
            r@ == (WindowState { ready: false, pending: None }),
    {
        WindowReady { ready: false, pending: None }
    }

    /// Asks for an incident to be shown. Returns what to show now.
    pub fn open(&mut self, path: &str, focus: bool) -> (r: Option<Navigation>)
        ensures
            final(self)@ == old(self)@.asked((path@, focus)),
            request(r) == old(self)@.shown_on_request((path@, focus)),
    {
        let n = Navigation { path: path.to_string(), focus };
        if self.ready {
            Some(n)
        } else {
            self.pending = Some(n);
            None
        }
    }

    /// A page has loaded. Returns what to show now.
    pub fn page_loaded(&mut self) -> (r: Option<Navigation>)
        ensures
            final(self)@ == old(self)@.loaded(),
            request(r) == old(self)@.shown_on_load(),
    {
        if self.ready {
            None
        } else {
            self.ready = true;
            self.pending.take()
        }
    }
}

/// No request is lost: it is shown at once, or when the first page has
/// loaded, unless another one comes before that.
pub proof fn law_request_is_shown(w: WindowState, n: (Seq<char>, bool))
    ensures
        w.ready ==> w.shown_on_request(n) == Some(n),
        !w.ready ==> w.asked(n).shown_on_load() == Some(n),
{
}

/// Of several requests that come too early, the last is shown.
pub proof fn law_last_request_wins(
    w: WindowState,
    first: (Seq<char>, bool),
    second: (Seq<char>, bool),
)
    requires
        !w.ready,
    ensures
        w.asked(first).asked(second) == w.asked(second),
        w.asked(first).asked(second).shown_on_load() == Some(second),
{
}

/// A request that was kept is shown once: no later page shows anything
/// again, and a request that comes after is shown at once.
pub proof fn law_kept_request_is_shown_once(w: WindowState, later: (Seq<char>, bool))
    ensures
        w.loaded().shown_on_load() is None,
        w.loaded().loaded() == w.loaded(),
        w.loaded().shown_on_request(later) == Some(later),
        w.loaded().asked(later) == w.loaded(),
{
}

/// Whether a page that has loaded is the one that is waited for.
pub fn is_main_page(label: &str, finished: bool) -> (r: bool)
    ensures
        r == (label@ == "main"@ && finished),
{
    same(label, "main") && finished
}

// ---------------------------------------------------------------- polling

/// How long before polling started an incident may have been written and
/// still be new, in nanoseconds: long enough for a slow start, and short
/// enough to leave out what has piled up before.
pub const STARTUP_GRACE: u128 = 300000000000;

/// The directory that is polled: an override, or the journal's.
pub open spec fn polled_dir(over: Option<Seq<char>>, home: Option<Seq<char>>) -> Seq<char> {
    match over {
        Some(d) => d,
        None => path_join(
            path_join(
                match home {
                    Some(h) => h,
                    None => Seq::empty(),
                },
                ".vigil"@,
            ),
            "incidents"@,
        ),
    }
}

/// The directory that is polled: an override, or the journal's.
pub fn incidents_dir(over: Option<&str>, home: Option<&str>) -> (r: String)
    ensures
        r@ == polled_dir(optional_str(over), optional_str(home)),
{
    match over {
        Some(d) => d.to_string(),
        None => {
            let h = match home {
                Some(h) => h,
                None => "",
            };
            proof {
                reveal_strlit("");
                assert(""@ =~= Seq::<char>::empty());
            }
            join_path(join_path(h, ".vigil").as_str(), "incidents")
        },
    }
}

/// What polling has dealt with. Times are in nanoseconds since the epoch.
pub struct Poller {
    /// When polling started.
    pub started: u128,
    /// The files that were dealt with.
    pub seen: Stamps,
}

/// What to do about a file.
#[derive(Debug)]
pub enum Finding {
    /// Nothing now; look again next time.
    Later,
    /// Nothing: an old incident, or one that was dealt with.
    Old,
    /// A new incident: show it and say so in these words.
    New(String),
}

/// What to do about a file, with the words as a sequence.
pub enum FindingView {
    Later,
    Old,
    New(Seq<char>),
}

impl View for Finding {
    type V = FindingView;

    open spec fn view(&self) -> FindingView {
        match *self {
            Finding::Later => FindingView::Later,
            Finding::Old => FindingView::Old,
            Finding::New(words) => FindingView::New(words@),
        }
    }
}

/// What a notification says about an incident.
pub open spec fn notification_body(content: Seq<char>) -> Seq<char> {
    match field(content, "**Rule message:**"@) {
        Some(m) => m,
        None => "New incident detected."@,
    }
}

/// The file can be read, and holds an incident.
pub open spec fn is_stub(content: Option<Seq<char>>) -> bool {
    content matches Some(c) && contains(c, "**Alert key:**"@)
}

/// The file was written no longer than the grace before polling started.
pub open spec fn is_recent(modified: Option<u128>, started: u128) -> bool {
    modified matches Some(m) && m + STARTUP_GRACE >= started
}

/// What to do about a file. A file that cannot be read, or that is no
/// incident yet, may still be in the middle of being written.
pub open spec fn finding(
    seen: Set<Seq<char>>,
    path: Seq<char>,
    content: Option<Seq<char>>,
    modified: Option<u128>,
    started: u128,
) -> FindingView {
    if seen.contains(path) {
        FindingView::Old
    } else if !is_stub(content) {
        FindingView::Later
    } else if is_recent(modified, started) {
        FindingView::New(notification_body(content->Some_0))
    } else {
        FindingView::Old
    }
}

/// The files that were dealt with, behind a look at one.
pub open spec fn dealt_with(seen: Set<Seq<char>>, path: Seq<char>, content: Option<Seq<char>>) -> Set<
    Seq<char>,
> {
    if is_stub(content) {
        seen.insert(path)
    } else {
        seen
    }
}

impl Poller {
    pub fn new(started: u128) -> (r: Self)
        ensures
            r.started == started,
            r.seen@.dom() == Set::<Seq<char>>::empty(),
    {
        Poller { started, seen: Stamps::new() }
    }

    /// Looks at a file. `content` is `None` where it cannot be read, and
    /// `modified` where that is not known.
    pub fn look(&mut self, path: &str, content: Option<&str>, modified: Option<u128>) -> (r:
        Finding)
        ensures
            final(self).started == old(self).started,
            r@ == finding(
                old(self).seen@.dom(),
                path@,
                optional_str(content),
                modified,
                old(self).started,
            ),
            final(self).seen@.dom() == dealt_with(
                old(self).seen@.dom(),
                path@,
                optional_str(content),
            ),
    {
        if self.seen.get(path).is_some() {
            assert(self.seen@.dom().insert(path@) == self.seen@.dom());
            return Finding::Old;
        }
        let text = match content {
            Some(c) => c,
            None => {
                return Finding::Later;
            },
        };
        if !contains_text(text, "**Alert key:**") {
            return Finding::Later;
        }
        self.seen.set(path, 0);
        let recent = match modified {
            Some(m) => m >= self.started || self.started - m <= STARTUP_GRACE,
            None => false,
        };
        if !recent {
            return Finding::Old;
        }
        match extract_rule_message(text) {
            Some(m) => Finding::New(m.to_string()),
            None => Finding::New("New incident detected.".to_string()),
        }
    }
}

/// An incident is announced once: when it has been, or was too old to be, it
/// never is again, whatever becomes of the file.
pub proof fn law_incident_is_announced_once(
    seen: Set<Seq<char>>,
    path: Seq<char>,
    content: Option<Seq<char>>,
    modified: Option<u128>,
    started: u128,
    later_content: Option<Seq<char>>,
    later_modified: Option<u128>,
)
    requires
        !(finding(seen, path, content, modified, started) is Later),
    ensures
        finding(
            dealt_with(seen, path, content),
            path,
            later_content,
            later_modified,
            started,
        ) is Old,
{
}

/// A file that is caught in the middle of being written is not lost: once it
/// holds an incident it is announced.
pub proof fn law_half_written_incident_is_not_lost(
    seen: Set<Seq<char>>,
    path: Seq<char>,
    half: Option<Seq<char>>,
    whole: Seq<char>,
    half_modified: Option<u128>,
    modified: Option<u128>,
    started: u128,
)
    requires
        finding(seen, path, half, half_modified, started) is Later,
        is_stub(Some(whole)),
        is_recent(modified, started),
    ensures
        finding(dealt_with(seen, path, half), path, Some(whole), modified, started)
            == FindingView::New(notification_body(whole)),
{
}

// ----------------------------------------------------------------- replies

/// What a finished command comes to: what it printed, or what it complained
/// about.
pub fn command_reply(success: bool, stdout: &str, stderr: &str) -> (r: Result<String, String>)
    ensures
        match r {
            Ok(s) => success && s@ == trim(stdout@),
            Err(e) => !success && e@ == trim(stderr@),
        },
{
    if success {
        Ok(trimmed(stdout))
    } else {
        Err(trimmed(stderr))
    }
}

/// What a finished `vigil incidents --show <name> --json` comes to: the
/// incident that it printed, or why there is none. `stdout` is taken as it
/// came, since bytes that are not UTF-8 are no JSON.
pub fn incident_reply(success: bool, stdout: &[u8], stderr: &str) -> (r: Result<
    serde_json::Value,
    String,
>)
    ensures
        match r {
            Ok(v) => success && json_in_bytes(stdout@) == Some(json_of(v)),
            Err(e) => if success {
                json_in_bytes(stdout@) is None
                    && "failed to parse vigil's JSON output: "@.is_prefix_of(e@)
            } else {
                e@ == trim(stderr@)
            },
        },
{
    if !success {
        return Err(trimmed(stderr));
    }
    match read_json_bytes(stdout) {
        Ok(v) => Ok(v),
        Err(e) => {
            let mut message = "failed to parse vigil's JSON output: ".to_string();
            let ghost start = message@;
            message.append(describe(&e).as_str());
            assert(message@.subrange(0, start.len() as int) == start);
            Err(message)
        },
    }
}

/// A greeting.
pub fn greet(name: &str) -> (r: String)
    ensures
        r@ == "Hello, "@ + name@ + "! You've been greeted from Rust!"@,
{
    let mut r = "Hello, ".to_string();
    r.append(name);
    r.append("! You've been greeted from Rust!");
    r
}

/// An incident is announced exactly when it was not dealt with before, its
/// file has an alert key in it, and it was last changed at most five minutes
/// before the window started. Only a file with a key is dealt with by that.
pub proof fn law_new_incidents(
    seen: Set<Seq<char>>,
    path: Seq<char>,
    content: Option<Seq<char>>,
    modified: Option<u128>,
    started: u128,
)
    ensures
        ({
            let f = finding(seen, path, content, modified, started);
            let keyed = content is Some && exists|i: int|
                spelled_at(content->0, "**Alert key:**"@, i);
            let fresh = modified is Some && started - modified->0 <= 300000000000;
            &&& f is New <==> !seen.contains(path) && keyed && fresh
            &&& f is Later <==> !seen.contains(path) && !keyed
            &&& f is Old <==> seen.contains(path) || keyed && !fresh
            &&& dealt_with(seen, path, content) == if keyed {
                seen.insert(path)
            } else {
                seen
            }
            &&& f matches FindingView::New(words) ==> words == (match field(
                content->0,
                "**Rule message:**"@,
            ) {
                Some(m) => m,
                None => "New incident detected."@,
            })
        }),
{
    if content is Some {
        law_search_finds_the_first(content->0, "**Alert key:**"@, 0);
    }
}

/// Only an address that starts with `vigil://incident/` opens an incident, and
/// of several arguments the first such address does.
pub proof fn law_incident_address(url: Seq<char>, rest: Seq<Seq<char>>)
    ensures
        !spelled_at(url, "vigil://incident/"@, 0) ==> incident_path(url) is None,
        first_incident(Seq::<Seq<char>>::empty()) is None,
        incident_path(url) is Some ==> first_incident(seq![url] + rest) == incident_path(url),
        incident_path(url) is None ==> first_incident(seq![url] + rest) == first_incident(rest),
{
    lemma_prefix(url, "vigil://incident/"@);
    let all = seq![url] + rest;
    assert(all.skip(1) =~= rest);
    assert(all[0] == url);
}

} // verus!
