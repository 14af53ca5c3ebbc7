//! What the menu bar shows and what a click in its menu means.
use crate::battery::NANOS_PER_SEC;
use crate::incidents::{extract_title, title_of};
use crate::menubar::HealthLevel;
use crate::text::same;
use vstd::prelude::*;

verus! {

/// How many incidents the menu holds.
pub const MENU_LEN: usize = 8;

/// After how many seconds without an update a status is stale: three polls,
/// a poll taking at least a second.
pub fn stale_after_secs(poll_interval: u128) -> (r: u64)
    requires
        poll_interval / NANOS_PER_SEC <= u64::MAX / 3,
    ensures
        r == 3 * if poll_interval / NANOS_PER_SEC == 0 {
            1
        } else {
            (poll_interval / NANOS_PER_SEC) as int
        },
{
    let secs: u64 = (poll_interval / NANOS_PER_SEC) as u64;
    if secs == 0 {
        3
    } else {
        secs * 3
    }
}

/// The tooltip for a level of health.
pub open spec fn tooltip_text(level: HealthLevel) -> Seq<char> {
    match level {
        HealthLevel::Healthy => "vigil: all clear"@,
        HealthLevel::Warning => "vigil: 1 open incident"@,
        HealthLevel::Critical => "vigil: multiple open incidents"@,
        HealthLevel::Unknown => "vigil: watch not reporting"@,
    }
}

/// The tooltip for a level of health.
pub fn tooltip(level: HealthLevel) -> (r: &'static str)
    ensures
        r@ == tooltip_text(level),
{
    match level {
        HealthLevel::Healthy => "vigil: all clear",
        HealthLevel::Warning => "vigil: 1 open incident",
        HealthLevel::Critical => "vigil: multiple open incidents",
        HealthLevel::Unknown => "vigil: watch not reporting",
    }
}

/// An entry of the menu.
pub enum MenuEntry {
    /// A line that cannot be clicked.
    Note(String),
    Incident { path: String, title: String },
    Separator,
    Quit(String),
}

/// What an entry of the menu is.
pub enum MenuEntryView {
    Note(Seq<char>),
    Incident { path: Seq<char>, title: Seq<char> },
    Separator,
    Quit(Seq<char>),
}

impl View for MenuEntry {
    type V = MenuEntryView;

    open spec fn view(&self) -> MenuEntryView {
        match self {
            MenuEntry::Note(s) => MenuEntryView::Note(s@),
            MenuEntry::Incident { path, title } => MenuEntryView::Incident {
                path: path@,
                title: title@,
            },
            MenuEntry::Separator => MenuEntryView::Separator,
            MenuEntry::Quit(s) => MenuEntryView::Quit(s@),
        }
    }
}

/// An incident file: its path, and what it holds, if it can be read.
pub struct IncidentFile {
    pub path: String,
    pub content: Option<String>,
}

pub open spec fn incident_entry(f: IncidentFile) -> MenuEntryView {
    MenuEntryView::Incident {
        path: f.path@,
        title: match f.content {
            Some(c) => title_of(c@),
            None => "(unreadable)"@,
        },
    }
}

/// The entries of the menu for those incidents.
pub open spec fn menu(incidents: Seq<IncidentFile>) -> Seq<MenuEntryView> {
    (if incidents.len() == 0 {
        seq![MenuEntryView::Note("No incidents yet"@)]
    } else {
        incidents.map_values(|f: IncidentFile| incident_entry(f))
    }) + seq![MenuEntryView::Separator, MenuEntryView::Quit("Quit vigil menubar"@)]
}

pub open spec fn entries_view(entries: Seq<MenuEntry>) -> Seq<MenuEntryView> {
    entries.map_values(|e: MenuEntry| e@)
}

/// The entries of the menu for those incidents.
pub fn build_menu(incidents: &Vec<IncidentFile>) -> (r: Vec<MenuEntry>)
    ensures
        entries_view(r@) == menu(incidents@),
{
    let mut r: Vec<MenuEntry> = Vec::new();
    let ghost all = incidents@.map_values(|f: IncidentFile| incident_entry(f));
    if incidents.len() == 0 {
        r.push(MenuEntry::Note("No incidents yet".to_string()));
        assert(entries_view(r@) == seq![MenuEntryView::Note("No incidents yet"@)]);
    } else {
        let mut i: usize = 0;
        assert(entries_view(r@) == all.take(0));
        while i < incidents.len()
            invariant
                i <= incidents@.len(),
                all == incidents@.map_values(|f: IncidentFile| incident_entry(f)),
                entries_view(r@) == all.take(i as int),
            decreases incidents@.len() - i,
        {
            let ghost had = r@;
            let f = &incidents[i];
            let title = match &f.content {
                Some(c) => extract_title(c.as_str()).to_string(),
                None => "(unreadable)".to_string(),
            };
            let e = MenuEntry::Incident { path: f.path.clone(), title };
            assert(e@ == all[i as int]);
            r.push(e);
            assert(entries_view(r@) == entries_view(had).push(e@));
            assert(all.take(i + 1) == all.take(i as int).push(e@));
            i = i + 1;
        }
        assert(all.take(i as int) == all);
    }
    let ghost had = r@;
    r.push(MenuEntry::Separator);
    r.push(MenuEntry::Quit("Quit vigil menubar".to_string()));
    assert(entries_view(r@) == entries_view(had) + seq![
        MenuEntryView::Separator,
        MenuEntryView::Quit("Quit vigil menubar"@),
    ]);
    r
}

/// What a click means.
pub enum Click {
    Quit,
    /// Open the incident file with that path.
    Open(String),
    Nothing,
}

/// What a click on the entry with the identifier `id` means, where `paths`
/// are the incident files in the menu.
pub fn on_click(id: &str, paths: &Vec<String>) -> (r: Click)
    ensures
        match r {
            Click::Quit => id@ == "quit"@,
            Click::Open(p) => id@ != "quit"@ && p@ == id@ && crate::text::texts(paths@).contains(
                id@,
            ),
            Click::Nothing => id@ != "quit"@ && !crate::text::texts(paths@).contains(id@),
        },
{
    if same(id, "quit") {
        return Click::Quit;
    }
    let ghost all = crate::text::texts(paths@);
    let mut i: usize = 0;
    while i < paths.len()
        invariant
            i <= paths@.len(),
            id@ != "quit"@,
            all == crate::text::texts(paths@),
            forall|j: int| 0 <= j < i ==> #[trigger] all[j] != id@,
        decreases paths@.len() - i,
    {
        assert(all[i as int] == paths@[i as int]@);
        if same(paths[i].as_str(), id) {
            return Click::Open(paths[i].clone());
        }
        i = i + 1;
    }
    Click::Nothing
}

/// The level that is shown.
pub struct Indicator {
    pub shown: Option<HealthLevel>,
}

impl Indicator {
    pub fn new() -> (r: Self)
        ensures
            r.shown is None,
    {
        Indicator { shown: None }
    }

    /// Takes a new level in. Returns whether the icon and the tooltip have to
    /// change.
    pub fn update(&mut self, level: HealthLevel) -> (r: bool)
        ensures
            r == (old(self).shown != Some(level)),
            final(self).shown == Some(level),
    {
        let changed = match self.shown {
            Some(l) => l != level,
            None => true,
        };
        self.shown = Some(level);
        changed
    }
}

/// The menu lists every incident it is given, in that order, above a line and
/// the way to quit; without one it says so.
pub proof fn law_menu(incidents: Seq<IncidentFile>)
    ensures
        incidents.len() > 0 ==> menu(incidents).len() == incidents.len() + 2,
        incidents.len() == 0 ==> menu(incidents).len() == 3 && menu(incidents)[0]
            == MenuEntryView::Note("No incidents yet"@),
        menu(incidents)[menu(incidents).len() - 2] == MenuEntryView::Separator,
        menu(incidents).last() == MenuEntryView::Quit("Quit vigil menubar"@),
        forall|i: int|
            0 <= i < incidents.len() ==> (#[trigger] menu(incidents)[i]
                matches MenuEntryView::Incident { path, title } && path == incidents[i].path@
                && title == (match incidents[i].content {
                Some(c) => title_of(c@),
                None => "(unreadable)"@,
            })),
{
    let n = incidents.len() as int;
    if n > 0 {
        let listed = incidents.map_values(|f: IncidentFile| incident_entry(f));
        assert forall|i: int| 0 <= i < n implies (#[trigger] menu(incidents)[i]
            matches MenuEntryView::Incident { path, title } && path == incidents[i].path@ && title
            == (match incidents[i].content {
            Some(c) => title_of(c@),
            None => "(unreadable)"@,
        })) by {
            assert(menu(incidents)[i] == listed[i]);
        }
    }
}

/// Every level of health has words of its own.
pub proof fn law_tooltips_differ(a: HealthLevel, b: HealthLevel)
    ensures
        tooltip_text(a) == tooltip_text(b) ==> a == b,
        tooltip_text(HealthLevel::Healthy) == "vigil: all clear"@,
        tooltip_text(HealthLevel::Unknown) == "vigil: watch not reporting"@,
{
    reveal_strlit("vigil: all clear");
    reveal_strlit("vigil: 1 open incident");
    reveal_strlit("vigil: multiple open incidents");
    reveal_strlit("vigil: watch not reporting");
    assert("vigil: all clear"@.len() == 16);
    assert("vigil: 1 open incident"@.len() == 22);
    assert("vigil: multiple open incidents"@.len() == 30);
    assert("vigil: watch not reporting"@.len() == 26);
}

} // verus!
