//! What `vigil watch` decides with every sample: what to say about it, and
//! how to react to each alert.
use crate::agent::{augment_with_investigate_hint, investigate_hint, is_journal_worthy, journal_worthy};
use crate::alerts::{
    connection_alerts, cpu_hog, evaluate_battery, evaluate_if, findings_if, fire, fired_at,
    gigabytes, gigabytes_text, is_load_high, leaked_groups, lemma_fire_more, load_is_high,
    low_battery, low_disk, low_disks, next_streaks, optional_str, starts_incident, views, Alert,
    AlertState, AlertView, IncidentTracker,
};
use crate::alerts::load_threshold;
use crate::battery::{eta_text, format_eta, observed, time_left, BatteryTrend};
use crate::float::{lemma_whole_exact, DOUBLE};
use crate::number::{decimal, hundredths, hundredths_text, push_decimal, ONE};
use crate::snapshot::{BatteryInfo, ConnectionCounts, DiskInfo, ProcGroup, ProcInfo, Snapshot};
use crate::process_tree::lemma_prefix;
use crate::text_laws::spelled_at;
use vstd::prelude::*;
use vstd::string::StringExecFns;

verus! {

pub struct WatchArgs {
    /// In seconds.
    pub interval: u64,
    /// How many samples to take; 0 for no end.
    pub count: u64,
    pub out: String,
    pub top: usize,
    pub no_notify: bool,
    pub cooldown_secs: u64,
    pub incidents_dir: String,
    pub status_file: String,
}

/// The longest duration, in nanoseconds, that a clock measures.
pub const MAX_DURATION: u128 = 18446744073709551615999999999;

/// How long a target has to be quiet before its next firing is a new
/// incident: twice the cooldown, so that a rule that goes in and out right at
/// the end of its cooldown still counts as one that keeps firing.
pub fn incident_timeout(cooldown: u128) -> (r: u128)
    requires
        cooldown * 2 <= MAX_DURATION,
    ensures
        r == cooldown * 2,
{
    cooldown * 2
}

/// How to react to an alert.
#[derive(Debug, Clone, Copy, PartialEq, Eq, Structural)]
pub enum Reaction {
    /// A new incident that belongs in the journal.
    WriteStub,
    /// A new incident that is only shown.
    Notify,
    /// The incident is open already: not shown again.
    Suppress,
}

/// How to react to an alert, where `last` is when each target last fired.
pub open spec fn reaction(
    last: Map<Seq<char>, u64>,
    alert: AlertView,
    timeout: nat,
    now: u64,
) -> Reaction {
    if !starts_incident(last, alert.target, timeout, now) {
        Reaction::Suppress
    } else if journal_worthy(alert.key) {
        Reaction::WriteStub
    } else {
        Reaction::Notify
    }
}

/// Decides how to react to an alert, and remembers that its target fired.
pub fn react(alert: &Alert, tracker: &mut IncidentTracker, timeout: u128, now: u64) -> (r: Reaction)
    ensures
        r == reaction(old(tracker).last_seen@, alert@, timeout as nat, now),
        final(tracker).last_seen@ == fired_at(old(tracker).last_seen@, alert@.target, now),
{
    let target: Option<&str> = match &alert.target {
        Some(t) => Some(t.as_str()),
        None => None,
    };
    if !tracker.is_new_incident(target, timeout, now) {
        Reaction::Suppress
    } else if is_journal_worthy(alert.key.as_str()) {
        Reaction::WriteStub
    } else {
        Reaction::Notify
    }
}

/// When each target last fired, once all of `alerts` have fired at `now`.
pub open spec fn all_fired_at(
    last: Map<Seq<char>, u64>,
    alerts: Seq<AlertView>,
    now: u64,
) -> Map<Seq<char>, u64>
    decreases alerts.len(),
{
    if alerts.len() == 0 {
        last
    } else {
        fired_at(all_fired_at(last, alerts.drop_last(), now), alerts.last().target, now)
    }
}

/// How to react to each of the alerts that a sample brought, one after the
/// other.
pub open spec fn reactions(
    last: Map<Seq<char>, u64>,
    alerts: Seq<AlertView>,
    timeout: nat,
    now: u64,
) -> Seq<Reaction>
    decreases alerts.len(),
{
    if alerts.len() == 0 {
        Seq::empty()
    } else {
        reactions(last, alerts.drop_last(), timeout, now).push(
            reaction(all_fired_at(last, alerts.drop_last(), now), alerts.last(), timeout, now),
        )
    }
}

/// How long the load has to stay above its threshold before it is an alert,
/// in nanoseconds: long enough to leave out a load that only touches it.
pub const HIGH_LOAD_SUSTAINED_DURATION: u64 = 30000000000;

/// Since when the load has been above its threshold, once a sample has come
/// in: since that sample, where it was not before, and not at all where it
/// no longer is.
pub open spec fn high_since(
    before: Option<u64>,
    snap: Snapshot,
    cpu_count: usize,
    now: u64,
) -> Option<u64> {
    if !load_is_high(snap, cpu_count) {
        None
    } else if before is Some {
        before
    } else {
        Some(now)
    }
}

/// The load has stayed above its threshold for long enough.
pub open spec fn is_load_sustained(high: Option<u64>, now: u64) -> bool {
    high matches Some(t) && crate::stamps::since(now, t) >= HIGH_LOAD_SUSTAINED_DURATION
}

/// What is remembered from one sample to the next.
pub struct Monitor {
    pub alerts: AlertState,
    /// Since when the load has been above its threshold.
    pub high_load_since: Option<u64>,
    pub battery: BatteryTrend,
    pub incidents: IncidentTracker,
}

/// What a sample came to.
pub struct Outcome {
    /// How long the battery lasts, in nanoseconds.
    pub battery_eta: Option<u128>,
    pub alerts: Vec<Alert>,
    /// How to react to each of the alerts.
    pub reactions: Vec<Reaction>,
}

/// The battery's samples once that of a snapshot has come in.
pub open spec fn battery_after(
    samples: Seq<(u64, u8)>,
    battery: Option<BatteryInfo>,
    now: u64,
) -> Seq<(u64, u8)> {
    match battery {
        Some(b) => observed(samples, b.charging, b.percentage, now),
        None => observed(samples, None, None, now),
    }
}

impl Monitor {
    pub fn new() -> (r: Self)
        ensures
            r.alerts.last_fired@ == Map::<Seq<char>, u64>::empty(),
            r.alerts.cpu_hog_streak@ == Map::<u32, u32>::empty(),
            r.high_load_since is None,
            r.battery@ == Seq::<(u64, u8)>::empty(),
            r.incidents.last_seen@ == Map::<Seq<char>, u64>::empty(),
    {
        Monitor {
            alerts: AlertState::new(),
            high_load_since: None,
            battery: BatteryTrend::new(),
            incidents: IncidentTracker::new(),
        }
    }

    /// Takes a sample in: the battery in any case, and, where the user wants
    /// to hear about them, the alerts. A high load is one only once it has
    /// stayed high.
    pub fn on_sample(
        &mut self,
        snap: &Snapshot,
        cpu_count: usize,
        notify: bool,
        cooldown: u128,
        now: u64,
    ) -> (r: Outcome)
        requires
            cooldown * 2 <= MAX_DURATION,
        ensures
            final(self).battery@ == battery_after(old(self).battery@, snap.battery, now),
            match r.battery_eta {
                Some(d) => time_left(final(self).battery@) == Some(d as nat),
                None => time_left(final(self).battery@) is None,
            },
            if notify {
                &&& final(self).alerts.cpu_hog_streak@ == next_streaks(
                    old(self).alerts.cpu_hog_streak@,
                    snap.top_cpu@,
                )
                &&& final(self).high_load_since == high_since(
                    old(self).high_load_since,
                    *snap,
                    cpu_count,
                    now,
                )
                &&& (final(self).alerts.last_fired@, views(r.alerts@)) == fire(
                    old(self).alerts.last_fired@,
                    cooldown as nat,
                    now,
                    findings_if(
                        is_load_sustained(final(self).high_load_since, now),
                        *snap,
                        cpu_count,
                        final(self).alerts.cpu_hog_streak@,
                    ) + low_battery(*snap, r.battery_eta),
                )
            } else {
                &&& final(self).alerts == old(self).alerts
                &&& final(self).high_load_since == old(self).high_load_since
                &&& r.alerts@.len() == 0
            },
            r.reactions@ == reactions(
                old(self).incidents.last_seen@,
                views(r.alerts@),
                cooldown as nat * 2,
                now,
            ),
            final(self).incidents.last_seen@ == all_fired_at(
                old(self).incidents.last_seen@,
                views(r.alerts@),
                now,
            ),
    {
        match &snap.battery {
            Some(b) => self.battery.record(b.charging, b.percentage, now),
            None => self.battery.record(None, None, now),
        }
        let battery_eta = self.battery.eta();
        let alerts = if notify {
            let ghost fired = self.alerts.last_fired@;
            if !is_load_high(snap, cpu_count) {
                self.high_load_since = None;
            } else if self.high_load_since.is_none() {
                self.high_load_since = Some(now);
            }
            let sustained = match self.high_load_since {
                Some(t) => now.saturating_sub(t) >= HIGH_LOAD_SUSTAINED_DURATION,
                None => false,
            };
            let mut found = evaluate_if(sustained, snap, cpu_count, &mut self.alerts, cooldown, now);
            let mut low = evaluate_battery(snap, battery_eta, &mut self.alerts, cooldown, now);
            proof {
                lemma_fire_more(
                    fired,
                    cooldown as nat,
                    now,
                    findings_if(sustained, *snap, cpu_count, self.alerts.cpu_hog_streak@),
                    low_battery(*snap, battery_eta),
                );
                assert(views(found@ + low@) == views(found@) + views(low@));
            }
            found.append(&mut low);
            found
        } else {
            Vec::new()
        };
        let timeout = incident_timeout(cooldown);
        let mut reactions: Vec<Reaction> = Vec::new();
        let ghost all = views(alerts@);
        let ghost last = self.incidents.last_seen@;
        let ghost state = self.alerts;
        let ghost high = self.high_load_since;
        let ghost samples = self.battery;
        let mut i: usize = 0;
        while i < alerts.len()
            invariant
                i <= alerts@.len(),
                all == views(alerts@),
                timeout == cooldown * 2,
                self.alerts == state,
                self.high_load_since == high,
                self.battery == samples,
                reactions@ == self::reactions(last, all.take(i as int), timeout as nat, now),
                self.incidents.last_seen@ == all_fired_at(last, all.take(i as int), now),
            decreases alerts@.len() - i,
        {
            proof {
                assert(all.take(i + 1).drop_last() == all.take(i as int));
                assert(all.take(i + 1).last() == alerts@[i as int]@);
            }
            let r = react(&alerts[i], &mut self.incidents, timeout, now);
            reactions.push(r);
            i = i + 1;
        }
        assert(all.take(i as int) == all);
        Outcome { battery_eta, alerts, reactions }
    }

    /// How many incidents are open.
    pub fn open_count(&self, cooldown: u128, now: u64) -> (r: usize)
        requires
            cooldown * 2 <= MAX_DURATION,
        ensures
            r == crate::stamps::recent(self.incidents.last_seen@, cooldown as nat * 2, now).len(),
    {
        self.incidents.open_count(incident_timeout(cooldown), now)
    }
}

/// What is shown about an alert. One that belongs in the journal is shown
/// with the command that investigates it.
pub open spec fn shown(
    alert: AlertView,
    reaction: Reaction,
    watch_log: Option<Seq<char>>,
) -> Option<AlertView> {
    match reaction {
        Reaction::WriteStub => Some(
            AlertView {
                message: alert.message + " — investigate? "@ + investigate_hint(
                    alert.key,
                    watch_log,
                ),
                ..alert
            },
        ),
        Reaction::Notify => Some(alert),
        Reaction::Suppress => None,
    }
}

/// What to show about an alert, if anything. Whether its stub could be
/// written makes no difference.
pub fn notification(alert: &Alert, reaction: Reaction, watch_log_path: Option<&str>) -> (r: Option<
    Alert,
>)
    ensures
        match r {
            Some(a) => shown(alert@, reaction, optional_str(watch_log_path)) == Some(a@),
            None => shown(alert@, reaction, optional_str(watch_log_path)) is None,
        },
{
    match reaction {
        Reaction::WriteStub => Some(augment_with_investigate_hint(alert, watch_log_path)),
        Reaction::Notify => {
            let target = match &alert.target {
                Some(t) => Some(t.clone()),
                None => None,
            };
            let command = match &alert.command {
                Some(c) => Some(c.clone()),
                None => None,
            };
            Some(
                Alert {
                    key: alert.key.clone(),
                    title: alert.title.clone(),
                    message: alert.message.clone(),
                    target,
                    command,
                },
            )
        },
        Reaction::Suppress => None,
    }
}

/// The line about a sample, the `n`th.
pub open spec fn sample_text(n: nat, snap: Snapshot, battery_eta: Option<u128>) -> Seq<char> {
    "[vigil] sample "@ + decimal(n) + " @ "@ + decimal(snap.ts_unix as nat) + " — load1="@
        + hundredths(snap.load_avg.one.bits as nat, ONE as nat) + " mem_used="@ + gigabytes(
        snap.memory.used_bytes,
    ) + "GB"@ + match battery_eta {
        Some(d) => " battery_eta="@ + eta_text(d as nat),
        None => Seq::empty(),
    }
}

/// The line about a sample, of which `taken` came before.
pub fn sample_line(taken: u64, snap: &Snapshot, battery_eta: Option<u128>) -> (r: String)
    ensures
        r@ == sample_text(taken as nat + 1, *snap, battery_eta),
{
    let mut eta: String = String::new();
    if let Some(d) = battery_eta {
        eta = " battery_eta=".to_string();
        eta.append(format_eta(d).as_str());
    }
    let mut r = "[vigil] sample ".to_string();
    push_decimal(&mut r, taken as u128 + 1);
    r.append(" @ ");
    push_decimal(&mut r, snap.ts_unix as u128);
    r.append(" — load1=");
    r.append(hundredths_text(snap.load_avg.one.bits as u128, ONE as u128).as_str());
    r.append(" mem_used=");
    r.append(gigabytes_text(snap.memory.used_bytes).as_str());
    r.append("GB");
    r.append(eta.as_str());
    r
}

/// The line about an alert.
pub open spec fn alert_text(alert: AlertView) -> Seq<char> {
    "[vigil] ALERT ["@ + alert.key + "] "@ + alert.message
}

/// The line about an alert.
pub fn alert_line(alert: &Alert) -> (r: String)
    ensures
        r@ == alert_text(alert@),
{
    let mut r = "[vigil] ALERT [".to_string();
    r.append(alert.key.as_str());
    r.append("] ");
    r.append(alert.message.as_str());
    r
}

/// Whether that was the last sample, once `taken` have been taken.
pub fn is_done(taken: u64, count: u64) -> (r: bool)
    ensures
        r == (count != 0 && taken >= count),
{
    count != 0 && taken >= count
}

/// While an alert about one target keeps firing, each time at most `timeout`
/// after the last, it is reacted to once.
pub proof fn law_one_reaction_per_incident(
    last: Map<Seq<char>, u64>,
    alert: AlertView,
    again: AlertView,
    timeout: nat,
    now: u64,
    later: u64,
)
    requires
        alert.target is Some,
        again.target == alert.target,
        crate::stamps::since(later, now) <= timeout,
    ensures
        reaction(fired_at(last, alert.target, now), again, timeout, later) == Reaction::Suppress,
{
}

/// Every alert of a sample is reacted to, and once a sample is over, an alert
/// about any of its targets is suppressed until that has been quiet for
/// longer than `timeout`.
pub proof fn law_sample_opens_incidents(
    last: Map<Seq<char>, u64>,
    alerts: Seq<AlertView>,
    timeout: nat,
    now: u64,
    i: int,
    again: AlertView,
    later: u64,
)
    requires
        0 <= i < alerts.len(),
        alerts[i].target is Some,
        again.target == alerts[i].target,
        crate::stamps::since(later, now) <= timeout,
    ensures
        reactions(last, alerts, timeout, now).len() == alerts.len(),
        reaction(all_fired_at(last, alerts, now), again, timeout, later) == Reaction::Suppress,
{
    lemma_tracked(last, alerts, now, i);
    lemma_reactions_len(last, alerts, timeout, now);
}

proof fn lemma_tracked(last: Map<Seq<char>, u64>, alerts: Seq<AlertView>, now: u64, i: int)
    requires
        0 <= i < alerts.len(),
        alerts[i].target is Some,
    ensures
        all_fired_at(last, alerts, now).contains_key(alerts[i].target->0),
        all_fired_at(last, alerts, now)[alerts[i].target->0] == now,
    decreases alerts.len(),
{
    if i < alerts.len() - 1 {
        lemma_tracked(last, alerts.drop_last(), now, i);
    }
}

proof fn lemma_reactions_len(
    last: Map<Seq<char>, u64>,
    alerts: Seq<AlertView>,
    timeout: nat,
    now: u64,
)
    ensures
        reactions(last, alerts, timeout, now).len() == alerts.len(),
    decreases alerts.len(),
{
    if alerts.len() > 0 {
        lemma_reactions_len(last, alerts.drop_last(), timeout, now);
    }
}

/// An alert without a target is never suppressed.
pub proof fn law_targetless_alerts_are_shown(
    last: Map<Seq<char>, u64>,
    alert: AlertView,
    timeout: nat,
    now: u64,
)
    requires
        alert.target is None,
    ensures
        reaction(last, alert, timeout, now) != Reaction::Suppress,
{
}

/// Every one of the alerts has a target, or does not belong in the journal.
spec fn all_bounded(alerts: Seq<AlertView>) -> bool {
    forall|i: int|
        0 <= i < alerts.len() ==> (#[trigger] alerts[i]).target is Some || !journal_worthy(
            alerts[i].key,
        )
}

/// What the keys in the journal start with.
proof fn lemma_worthy_starts(key: Seq<char>)
    ensures
        journal_worthy(key) ==> key.len() > 7 && (key[0] == 'c' || key[0] == 'b' || (key[0] == 'h'
            && key[5] != 'c')),
{
    reveal_strlit("high_load");
    reveal_strlit("cpu_hog:");
    reveal_strlit("battery_low");
    reveal_strlit("high_process_count:");
    if "cpu_hog:"@.is_prefix_of(key) {
        assert(key.subrange(0, "cpu_hog:"@.len() as int)[0] == key[0]);
    }
    if "high_process_count:"@.is_prefix_of(key) {
        assert(key.subrange(0, "high_process_count:"@.len() as int)[0] == key[0]);
        assert(key.subrange(0, "high_process_count:"@.len() as int)[5] == key[5]);
    }
}

proof fn lemma_low_disks_bounded(disks: Seq<DiskInfo>)
    ensures
        all_bounded(low_disks(disks)),
    decreases disks.len(),
{
    if disks.len() > 0 {
        lemma_low_disks_bounded(disks.drop_last());
        let key = low_disk(disks.last()).key;
        lemma_worthy_starts(key);
        reveal_strlit("low_disk:");
        assert(key[0] == 'l');
    }
}

proof fn lemma_hog_has_target(streaks: Map<u32, u32>, procs: Seq<ProcInfo>)
    ensures
        all_bounded(cpu_hog(streaks, procs)),
    decreases procs.len(),
{
    if procs.len() > 0 {
        lemma_hog_has_target(streaks, procs.skip(1));
    }
}

proof fn lemma_leaked_have_target(groups: Seq<ProcGroup>)
    ensures
        all_bounded(leaked_groups(groups)),
    decreases groups.len(),
{
    if groups.len() > 0 {
        lemma_leaked_have_target(groups.drop_last());
    }
}

proof fn lemma_connections_bounded(connections: Option<ConnectionCounts>)
    ensures
        all_bounded(connection_alerts(connections)),
{
    lemma_worthy_starts("high_connection_count"@);
    lemma_worthy_starts("incoming_connections"@);
    reveal_strlit("high_connection_count");
    reveal_strlit("incoming_connections");
}

proof fn lemma_findings_bounded(
    load_counts: bool,
    snap: Snapshot,
    cpu_count: usize,
    streaks: Map<u32, u32>,
)
    ensures
        all_bounded(findings_if(load_counts, snap, cpu_count, streaks)),
{
    lemma_low_disks_bounded(snap.disks@);
    lemma_hog_has_target(streaks, snap.top_cpu@);
    lemma_connections_bounded(snap.connections);
    lemma_leaked_have_target(snap.top_mem_groups@);
}

proof fn lemma_fired_bounded(
    last: Map<Seq<char>, u64>,
    cooldown: nat,
    now: u64,
    found: Seq<AlertView>,
)
    requires
        all_bounded(found),
    ensures
        all_bounded(fire(last, cooldown, now, found).1),
    decreases found.len(),
{
    if found.len() > 0 {
        let less = found.drop_last();
        assert forall|i: int| 0 <= i < less.len() implies (#[trigger] less[i]).target is Some
            || !journal_worthy(less[i].key) by {
            assert(less[i] == found[i]);
        }
        lemma_fired_bounded(last, cooldown, now, less);
        let a = found[found.len() - 1];
        assert(a.target is Some || !journal_worthy(a.key));
    }
}

/// The journal does not grow without bound: of what the rules find, only an
/// alert with a target, which is held back while its incident is open, is
/// ever written to it.
pub proof fn law_journal_is_bounded(
    load_counts: bool,
    snap: Snapshot,
    cpu_count: usize,
    streaks: Map<u32, u32>,
    fired: Map<Seq<char>, u64>,
    cooldown: nat,
    now: u64,
    eta: Option<u128>,
    last: Map<Seq<char>, u64>,
    timeout: nat,
    i: int,
)
    requires
        ({
            let found = findings_if(load_counts, snap, cpu_count, streaks) + low_battery(snap, eta);
            let alerts = fire(fired, cooldown, now, found).1;
            0 <= i < alerts.len() && reaction(last, alerts[i], timeout, now) == Reaction::WriteStub
        }),
    ensures
        ({
            let found = findings_if(load_counts, snap, cpu_count, streaks) + low_battery(snap, eta);
            fire(fired, cooldown, now, found).1[i].target is Some
        }),
{
    lemma_findings_bounded(load_counts, snap, cpu_count, streaks);
    lemma_fired_bounded(
        fired,
        cooldown,
        now,
        findings_if(load_counts, snap, cpu_count, streaks) + low_battery(snap, eta),
    );
}

/// Since when the load has been above its threshold, once all of `samples`
/// have come in: each a snapshot and its time, the oldest first.
pub open spec fn high_since_all(samples: Seq<(Snapshot, u64)>, cpu_count: usize) -> Option<u64>
    decreases samples.len(),
{
    if samples.len() == 0 {
        None
    } else {
        let (snap, at) = samples.last();
        high_since(high_since_all(samples.drop_last(), cpu_count), snap, cpu_count, at)
    }
}

/// From the `k`th on, every sample had a load above the threshold.
pub open spec fn is_high_from(samples: Seq<(Snapshot, u64)>, cpu_count: usize, k: int) -> bool {
    &&& 0 <= k < samples.len()
    &&& forall|j: int| k <= j < samples.len() ==> load_is_high((#[trigger] samples[j]).0, cpu_count)
}

proof fn lemma_high_since(samples: Seq<(Snapshot, u64)>, cpu_count: usize)
    ensures
        match high_since_all(samples, cpu_count) {
            Some(t) => exists|k: int| #[trigger]
                is_high_from(samples, cpu_count, k) && samples[k].1 == t && (k == 0 || !load_is_high(
                    samples[k - 1].0,
                    cpu_count,
                )),
            None => samples.len() == 0 || !load_is_high(samples.last().0, cpu_count),
        },
    decreases samples.len(),
{
    if samples.len() > 0 {
        let less = samples.drop_last();
        let last = samples.len() - 1;
        lemma_high_since(less, cpu_count);
        if load_is_high(samples.last().0, cpu_count) {
            if high_since_all(less, cpu_count) is Some {
                let t = high_since_all(less, cpu_count)->0;
                let k = choose|k: int| #[trigger]
                    is_high_from(less, cpu_count, k) && less[k].1 == t && (k == 0 || !load_is_high(
                        less[k - 1].0,
                        cpu_count,
                    ));
                assert forall|j: int| k <= j < samples.len() implies load_is_high(
                    (#[trigger] samples[j]).0,
                    cpu_count,
                ) by {
                    if j < last {
                        assert(less[j] == samples[j]);
                    }
                }
                assert(is_high_from(samples, cpu_count, k));
                assert(less[k] == samples[k]);
            } else {
                assert(is_high_from(samples, cpu_count, last));
                if last > 0 {
                    assert(less.last() == samples[last - 1]);
                }
            }
        }
    }
}

/// A high load is an alert exactly when it has stayed high for long enough:
/// when, up to the latest of the samples, every one of an unbroken run that
/// is at least that long had a load above the threshold.
pub proof fn law_high_load_is_sustained(samples: Seq<(Snapshot, u64)>, cpu_count: usize)
    requires
        samples.len() > 0,
        forall|i: int, j: int|
            #![trigger samples[i], samples[j]]
            0 <= i <= j < samples.len() ==> samples[i].1 <= samples[j].1,
    ensures
        is_load_sustained(high_since_all(samples, cpu_count), samples.last().1) <==> exists|k: int|
            #[trigger]
            is_high_from(samples, cpu_count, k) && samples.last().1 - samples[k].1
                >= HIGH_LOAD_SUSTAINED_DURATION,
{
    lemma_high_since(samples, cpu_count);
    let high = high_since_all(samples, cpu_count);
    let now = samples.last().1;
    if is_load_sustained(high, now) {
        let k = choose|k: int| #[trigger]
            is_high_from(samples, cpu_count, k) && samples[k].1 == high->0 && (k == 0
                || !load_is_high(samples[k - 1].0, cpu_count));
        assert(is_high_from(samples, cpu_count, k));
    }
    if exists|k: int| #[trigger]
        is_high_from(samples, cpu_count, k) && now - samples[k].1 >= HIGH_LOAD_SUSTAINED_DURATION {
        let k = choose|k: int| #[trigger]
            is_high_from(samples, cpu_count, k) && now - samples[k].1
                >= HIGH_LOAD_SUSTAINED_DURATION;
        assert(load_is_high(samples[samples.len() - 1].0, cpu_count));
        let first = choose|first: int| #[trigger]
            is_high_from(samples, cpu_count, first) && samples[first].1 == high->0 && (first == 0
                || !load_is_high(samples[first - 1].0, cpu_count));
        if k < first {
            assert(load_is_high(samples[first - 1].0, cpu_count));
        }
        assert(samples[first].1 <= samples[k].1);
    }
}

/// An alert is held back exactly when its target fired at most the timeout
/// ago. One that is not is written to the journal exactly when it is about the
/// load, a hog, the battery or a leaked group, and else only shown.
pub proof fn law_reaction(
    last: Map<Seq<char>, u64>,
    alert: AlertView,
    timeout: nat,
    now: u64,
)
    ensures
        ({
            let r = reaction(last, alert, timeout, now);
            let repeat = alert.target is Some && last.contains_key(alert.target->0) && now
                - last[alert.target->0] <= timeout;
            let worthy = alert.key == "high_load"@ || alert.key == "battery_low"@ || spelled_at(
                alert.key,
                "cpu_hog:"@,
                0,
            ) || spelled_at(alert.key, "high_process_count:"@, 0);
            &&& r == Reaction::Suppress <==> repeat
            &&& r == Reaction::WriteStub <==> !repeat && worthy
            &&& r == Reaction::Notify <==> !repeat && !worthy
        }),
{
    lemma_prefix(alert.key, "cpu_hog:"@);
    lemma_prefix(alert.key, "high_process_count:"@);
}

/// Every alert of a sample gets a reaction: it is held back exactly when its
/// target fired at most the timeout ago or earlier in the same sample.
pub proof fn law_reactions_in_a_sample(
    last: Map<Seq<char>, u64>,
    alerts: Seq<AlertView>,
    timeout: nat,
    now: u64,
    i: int,
)
    requires
        0 <= i < alerts.len(),
    ensures
        reactions(last, alerts, timeout, now).len() == alerts.len(),
        reactions(last, alerts, timeout, now)[i] == Reaction::Suppress <==> alerts[i].target is Some
            && ((exists|j: int| 0 <= j < i && (#[trigger] alerts[j]).target == alerts[i].target)
            || last.contains_key(alerts[i].target->0) && now - last[alerts[i].target->0]
            <= timeout),
    decreases alerts.len(),
{
    let less = alerts.drop_last();
    let n = less.len() as int;
    if n > 0 {
        law_reactions_in_a_sample(last, less, timeout, now, 0);
    } else {
        assert(reactions(last, less, timeout, now) == Seq::<Reaction>::empty());
    }
    if i < n {
        law_reactions_in_a_sample(last, less, timeout, now, i);
        assert(less[i] == alerts[i]);
        if exists|j: int| 0 <= j < i && (#[trigger] alerts[j]).target == alerts[i].target {
            let j = choose|j: int| 0 <= j < i && (#[trigger] alerts[j]).target == alerts[i].target;
            assert(less[j].target == less[i].target);
        }
        if exists|j: int| 0 <= j < i && (#[trigger] less[j]).target == less[i].target {
            let j = choose|j: int| 0 <= j < i && (#[trigger] less[j]).target == less[i].target;
            assert(alerts[j].target == alerts[i].target);
        }
    } else {
        let seen = all_fired_at(last, less, now);
        law_reaction(seen, alerts[i], timeout, now);
        if alerts[i].target is Some {
            let t = alerts[i].target->0;
            lemma_all_fired(last, less, now, t);
            if exists|j: int| 0 <= j < i && (#[trigger] alerts[j]).target == alerts[i].target {
                let j = choose|j: int|
                    0 <= j < i && (#[trigger] alerts[j]).target == alerts[i].target;
                assert(less[j].target == Some(t));
            }
            if exists|j: int| 0 <= j < less.len() && (#[trigger] less[j]).target == Some(t) {
                let j = choose|j: int| 0 <= j < less.len() && (#[trigger] less[j]).target == Some(t);
                assert(alerts[j].target == alerts[i].target);
            }
        }
    }
}

proof fn lemma_all_fired(
    last: Map<Seq<char>, u64>,
    alerts: Seq<AlertView>,
    now: u64,
    t: Seq<char>,
)
    ensures
        ({
            let seen = all_fired_at(last, alerts, now);
            if exists|j: int| 0 <= j < alerts.len() && (#[trigger] alerts[j]).target == Some(t) {
                seen.contains_key(t) && seen[t] == now
            } else {
                seen.contains_key(t) == last.contains_key(t) && (last.contains_key(t) ==> seen[t]
                    == last[t])
            }
        }),
    decreases alerts.len(),
{
    if alerts.len() > 0 {
        let less = alerts.drop_last();
        let n = less.len() as int;
        lemma_all_fired(last, less, now, t);
        if exists|j: int| 0 <= j < less.len() && (#[trigger] less[j]).target == Some(t) {
            let j = choose|j: int| 0 <= j < less.len() && (#[trigger] less[j]).target == Some(t);
            assert(alerts[j].target == Some(t));
        }
        if alerts[n].target == Some(t) {
            assert(exists|j: int| 0 <= j < alerts.len() && (#[trigger] alerts[j]).target == Some(t));
        } else if exists|j: int| 0 <= j < alerts.len() && (#[trigger] alerts[j]).target == Some(t) {
            let j = choose|j: int| 0 <= j < alerts.len() && (#[trigger] alerts[j]).target == Some(t);
            assert(less[j].target == Some(t));
        }
    }
}

/// The load counts as sustained exactly when it was too high in the first of
/// a run of samples that is at least 30 seconds long and in every one since;
/// one sample in which it is not starts the count anew.
pub proof fn law_load_is_sustained(
    before: Option<u64>,
    snap: Snapshot,
    cpu_count: usize,
    now: u64,
)
    requires
        cpu_count <= 0x2_0000_0000_0000,
        before is Some ==> before->0 <= now,
    ensures
        ({
            let n: int = if cpu_count == 0 {
                1
            } else {
                cpu_count as int
            };
            let high = 2 * snap.load_avg.one.bits > 3 * n * 0x1_0000_0000;
            let since = high_since(before, snap, cpu_count, now);
            &&& since is Some <==> high
            &&& high && before is Some ==> since == before
            &&& high && before is None ==> since == Some(now)
            &&& is_load_sustained(since, now) <==> high && before is Some && now - before->0
                >= 30000000000
        }),
{
    let n: nat = if cpu_count == 0 {
        1
    } else {
        cpu_count as nat
    };
    lemma_whole_exact(n, DOUBLE as nat);
    lemma_whole_exact(n * 3, DOUBLE as nat);
    assert(load_threshold(cpu_count) == n * 3);
}

/// A suppressed alert is not shown, any other is; only one that is written to
/// the journal is shown with more than its message, and that ends with how to
/// have it looked into.
pub proof fn law_shown(alert: AlertView, watch_log: Option<Seq<char>>)
    ensures
        shown(alert, Reaction::Suppress, watch_log) is None,
        shown(alert, Reaction::Notify, watch_log) == Some(alert),
        ({
            let s = shown(alert, Reaction::WriteStub, watch_log);
            &&& s is Some
            &&& s->0.key == alert.key && s->0.title == alert.title && s->0.target == alert.target
                && s->0.command == alert.command
            &&& s->0.message == alert.message + " — investigate? "@ + match watch_log {
                Some(p) => "`vigil investigate "@ + alert.key + " --watch-log "@ + p + "`"@,
                None => "`vigil investigate "@ + alert.key + "`"@,
            }
        }),
{
}

/// A sample's battery is taken into the trend; a machine that reports none has
/// no trend.
pub proof fn law_battery_is_followed(
    samples: Seq<(u64, u8)>,
    b: BatteryInfo,
    now: u64,
)
    ensures
        battery_after(samples, None, now).len() == 0,
        battery_after(samples, Some(b), now) == observed(samples, b.charging, b.percentage, now),
{
}

/// The line about a sample gives its number, its time, the load, the memory in
/// use and, where it is known, how long the battery lasts.
pub proof fn law_sample_line(n: nat, snap: Snapshot, eta: u128)
    ensures
        ({
            let start = "[vigil] sample "@ + decimal(n) + " @ "@ + decimal(snap.ts_unix as nat)
                + " — load1="@ + hundredths(snap.load_avg.one.bits as nat, 0x1_0000_0000)
                + " mem_used="@ + gigabytes(snap.memory.used_bytes) + "GB"@;
            &&& sample_text(n, snap, None) == start
            &&& sample_text(n, snap, Some(eta)) == start + (" battery_eta="@ + eta_text(
                eta as nat,
            ))
        }),
{
    let start = "[vigil] sample "@ + decimal(n) + " @ "@ + decimal(snap.ts_unix as nat)
        + " — load1="@ + hundredths(snap.load_avg.one.bits as nat, 0x1_0000_0000) + " mem_used="@
        + gigabytes(snap.memory.used_bytes) + "GB"@;
    assert(start + Seq::<char>::empty() =~= start);
}

/// The line about an alert gives its key and its message.
pub proof fn law_alert_line(alert: AlertView)
    ensures
        alert_text(alert) == "[vigil] ALERT ["@ + alert.key + "] "@ + alert.message,
{
}

} // verus!
