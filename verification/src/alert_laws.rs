//! What the alert rules promise, said of the numbers and names in a snapshot.
use crate::alerts::{
    age, connection_alerts, cpu_hog, findings_if, fire, free_percent, gigabytes, high_load,
    high_process_count, leaked_groups, load_threshold, low_battery, low_disk, low_disks,
    low_memory, megabyte_tenths, megabytes, mem_consumer, next_streaks, other_findings, percent,
    sample_texts, self_note, swap_pressure, AlertView,
};
use crate::battery::eta_text;
use crate::float::{
    lemma_below_a_twentieth, lemma_near_scale, lemma_near_trans, lemma_nearest_off,
    lemma_ratio_near, lemma_shown_size, lemma_whole_exact, lemma_whole_near, ratio, whole, DOUBLE,
};
use crate::number::{decimal, nearest, tenths, ONE};
use crate::snapshot::{
    ConnectionCounts, DiskInfo, MemoryInfo, ProcGroup, ProcInfo, ProcSample, Snapshot,
};
use crate::text::join;
use vstd::prelude::*;

verus! {

/// One of the alerts has that key.
pub open spec fn has_key(alerts: Seq<AlertView>, key: Seq<char>) -> bool {
    exists|i: int| 0 <= i < alerts.len() && (#[trigger] alerts[i]).key == key
}

/// `part` stands somewhere in `text`.
pub open spec fn mentions(text: Seq<char>, part: Seq<char>) -> bool {
    exists|before: Seq<char>, after: Seq<char>| text == #[trigger] (before + part + after)
}

/// What is mentioned in a part of a text is mentioned in the text.
pub(crate) proof fn lemma_mentions_within(
    a: Seq<char>,
    b: Seq<char>,
    c: Seq<char>,
    part: Seq<char>,
)
    requires
        mentions(b, part),
    ensures
        mentions(a + b + c, part),
{
    let (x, y) = choose|x: Seq<char>, y: Seq<char>| b == #[trigger] (x + part + y);
    assert(a + b + c =~= (a + x) + part + (y + c));
}

// ------------------------------------------------------------------- keys

/// What tells the keys of the rules from one another.
spec fn kind(key: Seq<char>) -> (char, char, char) {
    (key[0], key[4], key[5])
}

spec fn of_kind(alerts: Seq<AlertView>, k: (char, char, char)) -> bool {
    forall|i: int| 0 <= i < alerts.len() ==> kind((#[trigger] alerts[i]).key) == k
}

proof fn lemma_kinds()
    ensures
        kind("high_load"@) == ('h', '_', 'l'),
        kind("swap_pressure"@) == ('s', '_', 'p'),
        kind("low_memory"@) == ('l', 'm', 'e'),
        kind("high_connection_count"@) == ('h', '_', 'c'),
        kind("incoming_connections"@) == ('i', 'm', 'i'),
        forall|t: Seq<char>| kind(#[trigger] ("low_disk:"@ + t)) == ('l', 'd', 'i'),
        forall|t: Seq<char>| kind(#[trigger] ("cpu_hog:"@ + t)) == ('c', 'h', 'o'),
        forall|t: Seq<char>| kind(#[trigger] ("high_process_count:"@ + t)) == ('h', '_', 'p'),
{
    reveal_strlit("high_load");
    reveal_strlit("swap_pressure");
    reveal_strlit("low_memory");
    reveal_strlit("high_connection_count");
    reveal_strlit("incoming_connections");
    reveal_strlit("low_disk:");
    reveal_strlit("cpu_hog:");
    reveal_strlit("high_process_count:");
    assert("low_disk:"@.len() == 9 && "cpu_hog:"@.len() == 8 && "high_process_count:"@.len() == 19);
}

proof fn lemma_disk_kind(disks: Seq<DiskInfo>)
    ensures
        of_kind(low_disks(disks), ('l', 'd', 'i')),
    decreases disks.len(),
{
    lemma_kinds();
    if disks.len() > 0 {
        lemma_disk_kind(disks.drop_last());
    }
}

proof fn lemma_group_kind(groups: Seq<ProcGroup>)
    ensures
        of_kind(leaked_groups(groups), ('h', '_', 'p')),
    decreases groups.len(),
{
    lemma_kinds();
    if groups.len() > 0 {
        lemma_group_kind(groups.drop_last());
    }
}

proof fn lemma_hog_kind(streaks: Map<u32, u32>, procs: Seq<ProcInfo>)
    ensures
        of_kind(cpu_hog(streaks, procs), ('c', 'h', 'o')),
    decreases procs.len(),
{
    lemma_kinds();
    if procs.len() > 0 {
        lemma_hog_kind(streaks, procs.skip(1));
    }
}

proof fn lemma_has_key_add(a: Seq<AlertView>, b: Seq<AlertView>, key: Seq<char>)
    ensures
        has_key(a + b, key) <==> has_key(a, key) || has_key(b, key),
{
    let s = a + b;
    if has_key(s, key) {
        let i = choose|i: int| 0 <= i < s.len() && (#[trigger] s[i]).key == key;
        if i < a.len() {
            assert(a[i].key == key);
        } else {
            assert(b[i - a.len()].key == key);
        }
    }
    if has_key(a, key) {
        let i = choose|i: int| 0 <= i < a.len() && (#[trigger] a[i]).key == key;
        assert(s[i].key == key);
    }
    if has_key(b, key) {
        let i = choose|i: int| 0 <= i < b.len() && (#[trigger] b[i]).key == key;
        assert(s[i + a.len()].key == key);
    }
}

/// A key is found exactly where the rule it belongs to finds it.
proof fn lemma_found_by(
    load_counts: bool,
    snap: Snapshot,
    cpu_count: usize,
    streaks: Map<u32, u32>,
    key: Seq<char>,
)
    ensures
        ({
            let found = has_key(findings_if(load_counts, snap, cpu_count, streaks), key);
            let k = kind(key);
            &&& k == ('h', '_', 'l') ==> found == (load_counts && has_key(
                high_load(snap, cpu_count),
                key,
            ))
            &&& k == ('s', '_', 'p') ==> found == has_key(swap_pressure(snap), key)
            &&& k == ('l', 'm', 'e') ==> found == has_key(low_memory(snap), key)
            &&& k == ('l', 'd', 'i') ==> found == has_key(low_disks(snap.disks@), key)
            &&& k == ('c', 'h', 'o') ==> found == has_key(cpu_hog(streaks, snap.top_cpu@), key)
            &&& k == ('h', '_', 'c') || k == ('i', 'm', 'i') ==> found == has_key(
                connection_alerts(snap.connections),
                key,
            )
            &&& k == ('h', '_', 'p') ==> found == has_key(
                leaked_groups(snap.top_mem_groups@),
                key,
            )
        }),
{
    lemma_kinds();
    lemma_disk_kind(snap.disks@);
    lemma_group_kind(snap.top_mem_groups@);
    lemma_hog_kind(streaks, snap.top_cpu@);
    let load: Seq<AlertView> = if load_counts {
        high_load(snap, cpu_count)
    } else {
        Seq::empty()
    };
    let a = swap_pressure(snap);
    let b = low_memory(snap);
    let c = low_disks(snap.disks@);
    let d = cpu_hog(streaks, snap.top_cpu@);
    let e = connection_alerts(snap.connections);
    let f = leaked_groups(snap.top_mem_groups@);
    lemma_has_key_add(load, other_findings(snap, streaks), key);
    lemma_has_key_add(a + b + c + d + e, f, key);
    lemma_has_key_add(a + b + c + d, e, key);
    lemma_has_key_add(a + b + c, d, key);
    lemma_has_key_add(a + b, c, key);
    lemma_has_key_add(a, b, key);
}

// ------------------------------------------------------------- thresholds

/// Swap pressure is found exactly when more than 2 GiB of swap are in use and
/// there is a process to point at. Nothing else in the snapshot decides.
pub proof fn law_swap_pressure(
    load_counts: bool,
    snap: Snapshot,
    cpu_count: usize,
    streaks: Map<u32, u32>,
)
    ensures
        has_key(findings_if(load_counts, snap, cpu_count, streaks), "swap_pressure"@)
            <==> snap.memory.swap_used_bytes > 2147483648 && snap.top_mem@.len() > 0,
{
    lemma_kinds();
    lemma_found_by(load_counts, snap, cpu_count, streaks, "swap_pressure"@);
    let a = swap_pressure(snap);
    if a.len() > 0 {
        assert(a[0].key == "swap_pressure"@);
    }
}

/// A high load is found exactly when the load average of the last minute is
/// more than one and a half times the number of processors, a machine that
/// reports none being taken to have one, and there is a process to point at.
pub proof fn law_high_load(
    snap: Snapshot,
    cpu_count: usize,
    streaks: Map<u32, u32>,
)
    requires
        cpu_count <= 0x2_0000_0000_0000,
    ensures
        has_key(findings_if(true, snap, cpu_count, streaks), "high_load"@) <==> 2
            * snap.load_avg.one.bits > 3 * (if cpu_count == 0 {
            1
        } else {
            cpu_count as int
        }) * 0x1_0000_0000 && snap.top_cpu@.len() > 0,
        !has_key(findings_if(false, snap, cpu_count, streaks), "high_load"@),
{
    lemma_kinds();
    lemma_found_by(true, snap, cpu_count, streaks, "high_load"@);
    lemma_found_by(false, snap, cpu_count, streaks, "high_load"@);
    let n: nat = if cpu_count == 0 {
        1
    } else {
        cpu_count as nat
    };
    lemma_whole_exact(n, DOUBLE as nat);
    lemma_whole_exact(n * 3, DOUBLE as nat);
    assert(load_threshold(cpu_count) == n * 3);
    let a = high_load(snap, cpu_count);
    if a.len() > 0 {
        assert(a[0].key == "high_load"@);
    }
}

/// Low memory is found only when less than a twentieth of it is free, and
/// always then, up to sizes at which double precision cannot tell the share
/// from a twentieth any more.
pub proof fn law_low_memory(
    load_counts: bool,
    snap: Snapshot,
    cpu_count: usize,
    streaks: Map<u32, u32>,
)
    requires
        snap.memory.total_bytes < 0x20_0000_0000_0000,
        snap.memory.free_bytes < 0x20_0000_0000_0000,
    ensures
        ({
            let found = has_key(findings_if(load_counts, snap, cpu_count, streaks), "low_memory"@);
            &&& found ==> 20 * snap.memory.free_bytes < snap.memory.total_bytes
                && snap.top_mem@.len() > 0
            &&& 20 * snap.memory.free_bytes < snap.memory.total_bytes && snap.top_mem@.len() > 0
                && snap.memory.total_bytes <= 0x1_0000_0000_0000 ==> found
        }),
{
    lemma_kinds();
    lemma_found_by(load_counts, snap, cpu_count, streaks, "low_memory"@);
    let m = snap.memory;
    if m.total_bytes > 0 {
        lemma_whole_exact(m.total_bytes as nat, DOUBLE as nat);
        lemma_whole_exact(m.free_bytes as nat, DOUBLE as nat);
        lemma_below_a_twentieth(m.free_bytes as nat, m.total_bytes as nat);
    }
    let a = low_memory(snap);
    if a.len() > 0 {
        assert(a[0].key == "low_memory"@);
    }
}

proof fn lemma_disk_found(disks: Seq<DiskInfo>, mount: Seq<char>)
    ensures
        has_key(low_disks(disks), "low_disk:"@ + mount) <==> exists|k: int|
            0 <= k < disks.len() && (#[trigger] disks[k]).mount_point@ == mount
                && disks[k].available_bytes < 10737418240,
    decreases disks.len(),
{
    let key = "low_disk:"@ + mount;
    let all = low_disks(disks);
    if disks.len() > 0 {
        let less = disks.drop_last();
        let last = disks.len() - 1;
        let d = disks[last];
        lemma_disk_found(less, mount);
        if has_key(all, key) {
            let i = choose|i: int| 0 <= i < all.len() && (#[trigger] all[i]).key == key;
            if i < low_disks(less).len() {
                assert(low_disks(less)[i].key == key);
                let k = choose|k: int|
                    0 <= k < less.len() && (#[trigger] less[k]).mount_point@ == mount
                        && less[k].available_bytes < 10737418240;
                assert(disks[k].mount_point@ == mount);
            } else {
                assert(key.skip(9) == mount && ("low_disk:"@ + d.mount_point@).skip(9)
                    == d.mount_point@) by {
                    reveal_strlit("low_disk:");
                    assert("low_disk:"@.len() == 9);
                }
                assert(disks[last].mount_point@ == mount);
            }
        }
        if exists|k: int|
            0 <= k < disks.len() && (#[trigger] disks[k]).mount_point@ == mount
                && disks[k].available_bytes < 10737418240 {
            let k = choose|k: int|
                0 <= k < disks.len() && (#[trigger] disks[k]).mount_point@ == mount
                    && disks[k].available_bytes < 10737418240;
            if k < last {
                assert(less[k] == disks[k]);
                let i = choose|i: int|
                    0 <= i < low_disks(less).len() && (#[trigger] low_disks(less)[i]).key == key;
                assert(all[i].key == key);
            } else {
                assert(all[low_disks(less).len() as int].key == key);
            }
        }
    }
}

/// A disk is found to be low exactly when less than 10 GiB of it are
/// available, however large it is and however full it is said to be.
pub proof fn law_low_disk(
    load_counts: bool,
    snap: Snapshot,
    cpu_count: usize,
    streaks: Map<u32, u32>,
    mount: Seq<char>,
)
    ensures
        has_key(findings_if(load_counts, snap, cpu_count, streaks), "low_disk:"@ + mount)
            <==> exists|k: int|
            0 <= k < snap.disks@.len() && (#[trigger] snap.disks@[k]).mount_point@ == mount
                && snap.disks@[k].available_bytes < 10737418240,
{
    lemma_kinds();
    lemma_found_by(load_counts, snap, cpu_count, streaks, "low_disk:"@ + mount);
    lemma_disk_found(snap.disks@, mount);
}

/// Many connections are found exactly when there are more than 1500, and many
/// from outside exactly when there are more than 10, whatever their states.
pub proof fn law_connections(
    load_counts: bool,
    snap: Snapshot,
    cpu_count: usize,
    streaks: Map<u32, u32>,
)
    ensures
        ({
            let found = findings_if(load_counts, snap, cpu_count, streaks);
            &&& has_key(found, "high_connection_count"@) <==> snap.connections is Some
                && snap.connections->0.total > 1500
            &&& has_key(found, "incoming_connections"@) <==> snap.connections is Some
                && snap.connections->0.incoming > 10
        }),
{
    lemma_kinds();
    lemma_found_by(load_counts, snap, cpu_count, streaks, "high_connection_count"@);
    lemma_found_by(load_counts, snap, cpu_count, streaks, "incoming_connections"@);
    if snap.connections is Some {
        let c = snap.connections->0;
        let a = crate::alerts::high_connection_count(c);
        let b = crate::alerts::incoming_connections(c);
        lemma_has_key_add(a, b, "high_connection_count"@);
        lemma_has_key_add(a, b, "incoming_connections"@);
        if a.len() > 0 {
            assert(a[0].key == "high_connection_count"@);
        }
        if b.len() > 0 {
            assert(b[0].key == "incoming_connections"@);
        }
    }
}

proof fn lemma_group_found(groups: Seq<ProcGroup>, name: Seq<char>)
    ensures
        has_key(leaked_groups(groups), "high_process_count:"@ + name) <==> exists|k: int|
            0 <= k < groups.len() && (#[trigger] groups[k]).name@ == name && groups[k].count > 100
                && groups[k].total_cpu_pct.bits < 5 * 0x1_0000_0000,
    decreases groups.len(),
{
    let key = "high_process_count:"@ + name;
    let all = leaked_groups(groups);
    if groups.len() > 0 {
        let less = groups.drop_last();
        let last = groups.len() - 1;
        let g = groups[last];
        lemma_group_found(less, name);
        if has_key(all, key) {
            let i = choose|i: int| 0 <= i < all.len() && (#[trigger] all[i]).key == key;
            if i < leaked_groups(less).len() {
                assert(leaked_groups(less)[i].key == key);
                let k = choose|k: int|
                    0 <= k < less.len() && (#[trigger] less[k]).name@ == name && less[k].count > 100
                        && less[k].total_cpu_pct.bits < 5 * 0x1_0000_0000;
                assert(groups[k].name@ == name);
            } else {
                assert(key.skip(19) == name && ("high_process_count:"@ + g.name@).skip(19)
                    == g.name@) by {
                    reveal_strlit("high_process_count:");
                    assert("high_process_count:"@.len() == 19);
                }
                assert(groups[last].name@ == name);
            }
        }
        if exists|k: int|
            0 <= k < groups.len() && (#[trigger] groups[k]).name@ == name && groups[k].count > 100
                && groups[k].total_cpu_pct.bits < 5 * 0x1_0000_0000 {
            let k = choose|k: int|
                0 <= k < groups.len() && (#[trigger] groups[k]).name@ == name && groups[k].count
                    > 100 && groups[k].total_cpu_pct.bits < 5 * 0x1_0000_0000;
            if k < last {
                assert(less[k] == groups[k]);
                let i = choose|i: int|
                    0 <= i < leaked_groups(less).len() && (#[trigger] leaked_groups(less)[i]).key
                        == key;
                assert(all[i].key == key);
            } else {
                assert(all[leaked_groups(less).len() as int].key == key);
            }
        }
    }
}

/// A group is found to be leaked exactly when it has more than 100 instances
/// that together use less than 5 percent of one processor.
pub proof fn law_leaked_group(
    load_counts: bool,
    snap: Snapshot,
    cpu_count: usize,
    streaks: Map<u32, u32>,
    name: Seq<char>,
)
    ensures
        has_key(findings_if(load_counts, snap, cpu_count, streaks), "high_process_count:"@ + name)
            <==> exists|k: int|
            0 <= k < snap.top_mem_groups@.len() && (#[trigger] snap.top_mem_groups@[k]).name@
                == name && snap.top_mem_groups@[k].count > 100
                && snap.top_mem_groups@[k].total_cpu_pct.bits < 5 * 0x1_0000_0000,
{
    lemma_kinds();
    lemma_found_by(load_counts, snap, cpu_count, streaks, "high_process_count:"@ + name);
    lemma_group_found(snap.top_mem_groups@, name);
}

/// A low battery is found exactly when it is known to be discharging with at
/// most 20 percent left, and there is a process to point at; how long it
/// lasts does not decide.
pub proof fn law_low_battery(snap: Snapshot, eta: Option<u128>)
    ensures
        low_battery(snap, eta).len() <= 1,
        has_key(low_battery(snap, eta), "battery_low"@) == (low_battery(snap, eta).len() == 1),
        low_battery(snap, eta).len() == 1 <==> {
            &&& snap.battery is Some
            &&& snap.battery->0.charging == Some(false)
            &&& snap.battery->0.percentage is Some
            &&& snap.battery->0.percentage->0 <= 20
            &&& snap.top_cpu@.len() > 0
        },
{
    let a = low_battery(snap, eta);
    if a.len() > 0 {
        assert(a[0].key == "battery_low"@);
    }
}

// ------------------------------------------------------------------- hogs

/// No two of the processes have the same pid.
pub open spec fn unique_pids(procs: Seq<ProcInfo>) -> bool {
    forall|i: int, j: int|
        #![trigger procs[i], procs[j]]
        0 <= i < procs.len() && 0 <= j < procs.len() && i != j ==> procs[i].pid != procs[j].pid
}

/// A process above 90 percent of one processor, however far above, has a
/// streak one sample longer than before; one at or below has none, nor has a
/// process that is not among the busiest.
pub proof fn law_streak_counts_samples(streaks: Map<u32, u32>, procs: Seq<ProcInfo>)
    requires
        unique_pids(procs),
    ensures
        ({
            let after = next_streaks(streaks, procs);
            &&& forall|k: int|
                0 <= k < procs.len() && (#[trigger] procs[k]).cpu_pct.bits > 90 * 0x1_0000_0000
                    ==> after.contains_key(procs[k].pid) && after[procs[k].pid] == (
                if !streaks.contains_key(procs[k].pid) {
                    1
                } else if streaks[procs[k].pid] < u32::MAX {
                    streaks[procs[k].pid] + 1
                } else {
                    u32::MAX as int
                })
            &&& forall|k: int|
                0 <= k < procs.len() && (#[trigger] procs[k]).cpu_pct.bits <= 90 * 0x1_0000_0000
                    ==> !after.contains_key(procs[k].pid)
            &&& forall|pid: u32|
                #![trigger after.contains_key(pid)]
                after.contains_key(pid) ==> exists|k: int|
                    0 <= k < procs.len() && (#[trigger] procs[k]).pid == pid
        }),
{
    let after = next_streaks(streaks, procs);
    assert(crate::alerts::pids_differ(procs));
    assert forall|k: int|
        0 <= k < procs.len() && (#[trigger] procs[k]).cpu_pct.bits > 90
            * 0x1_0000_0000 implies after.contains_key(procs[k].pid) && after[procs[k].pid] == (
    if !streaks.contains_key(procs[k].pid) {
        1
    } else if streaks[procs[k].pid] < u32::MAX {
        streaks[procs[k].pid] + 1
    } else {
        u32::MAX as int
    }) by {
        crate::alerts::law_streaks(streaks, procs, procs[k].pid);
    }
    assert forall|k: int|
        0 <= k < procs.len() && (#[trigger] procs[k]).cpu_pct.bits <= 90
            * 0x1_0000_0000 implies !after.contains_key(procs[k].pid) by {
        crate::alerts::law_streaks(streaks, procs, procs[k].pid);
    }
    assert forall|pid: u32|
        #![trigger after.contains_key(pid)]
        after.contains_key(pid) implies exists|k: int|
        0 <= k < procs.len() && (#[trigger] procs[k]).pid == pid by {
        crate::alerts::law_streaks(streaks, procs, pid);
    }
}

/// The process has a streak of at least three samples.
pub open spec fn three_in_a_row(streaks: Map<u32, u32>, p: ProcInfo) -> bool {
    streaks.contains_key(p.pid) && streaks[p.pid] >= 3
}

proof fn lemma_hog_found(streaks: Map<u32, u32>, procs: Seq<ProcInfo>)
    ensures
        ({
            let a = cpu_hog(streaks, procs);
            &&& a.len() <= 1
            &&& (forall|k: int| 0 <= k < procs.len() ==> !three_in_a_row(streaks, #[trigger] procs[k]))
                ==> a.len() == 0
            &&& forall|k: int|
                0 <= k < procs.len() && three_in_a_row(streaks, #[trigger] procs[k]) && (forall|
                    j: int,
                |
                    0 <= j < k ==> !three_in_a_row(streaks, #[trigger] procs[j])) ==> a.len() == 1
                    && a[0].key == "cpu_hog:"@ + decimal(procs[k].pid as nat) && a[0].target
                    == Some(procs[k].name@) && a[0].command == Some(procs[k].cmd@)
        }),
    decreases procs.len(),
{
    if procs.len() > 0 {
        let rest = procs.skip(1);
        lemma_hog_found(streaks, rest);
        let a = cpu_hog(streaks, procs);
        if three_in_a_row(streaks, procs[0]) {
        } else {
            if forall|k: int| 0 <= k < procs.len() ==> !three_in_a_row(streaks, #[trigger] procs[k]) {
                assert forall|k: int| 0 <= k < rest.len() implies !three_in_a_row(
                    streaks,
                    #[trigger] rest[k],
                ) by {
                    assert(rest[k] == procs[k + 1]);
                }
            }
            assert forall|k: int|
                0 <= k < procs.len() && three_in_a_row(streaks, #[trigger] procs[k]) && (forall|
                    j: int,
                |
                    0 <= j < k ==> !three_in_a_row(streaks, #[trigger] procs[j])) implies a.len()
                == 1 && a[0].key == "cpu_hog:"@ + decimal(procs[k].pid as nat) && a[0].target
                == Some(procs[k].name@) && a[0].command == Some(procs[k].cmd@) by {
                assert(rest[k - 1] == procs[k]);
                assert forall|j: int| 0 <= j < k - 1 implies !three_in_a_row(
                    streaks,
                    #[trigger] rest[j],
                ) by {
                    assert(rest[j] == procs[j + 1]);
                }
            }
        }
    }
}

/// One process is reported as a hog exactly when one of the busiest has a
/// streak of three samples or more: the first of those, by its pid, its name
/// and its command line.
pub proof fn law_hog_is_reported(
    load_counts: bool,
    snap: Snapshot,
    cpu_count: usize,
    streaks: Map<u32, u32>,
    k: int,
)
    requires
        0 <= k < snap.top_cpu@.len(),
        three_in_a_row(streaks, snap.top_cpu@[k]),
        forall|j: int| 0 <= j < k ==> !three_in_a_row(streaks, #[trigger] snap.top_cpu@[j]),
    ensures
        has_key(
            findings_if(load_counts, snap, cpu_count, streaks),
            "cpu_hog:"@ + decimal(snap.top_cpu@[k].pid as nat),
        ),
        cpu_hog(streaks, snap.top_cpu@).len() == 1,
        cpu_hog(streaks, snap.top_cpu@)[0].target == Some(snap.top_cpu@[k].name@),
        cpu_hog(streaks, snap.top_cpu@)[0].command == Some(snap.top_cpu@[k].cmd@),
{
    let key = "cpu_hog:"@ + decimal(snap.top_cpu@[k].pid as nat);
    lemma_kinds();
    lemma_found_by(load_counts, snap, cpu_count, streaks, key);
    lemma_hog_found(streaks, snap.top_cpu@);
    assert(cpu_hog(streaks, snap.top_cpu@)[0].key == key);
}

/// Without a streak of three samples among the busiest, no process is
/// reported as a hog.
pub proof fn law_no_hog_without_a_streak(
    load_counts: bool,
    snap: Snapshot,
    cpu_count: usize,
    streaks: Map<u32, u32>,
    what: Seq<char>,
)
    requires
        forall|k: int|
            0 <= k < snap.top_cpu@.len() ==> !three_in_a_row(streaks, #[trigger] snap.top_cpu@[k]),
    ensures
        !has_key(findings_if(load_counts, snap, cpu_count, streaks), "cpu_hog:"@ + what),
{
    lemma_kinds();
    lemma_found_by(load_counts, snap, cpu_count, streaks, "cpu_hog:"@ + what);
    lemma_hog_found(streaks, snap.top_cpu@);
}

/// A process above 90 percent in three samples in a row is reported in the
/// third, or one ahead of it in the ranking is that has been above as long;
/// it alone, where there is none ahead of it.
pub proof fn law_three_samples_above_ninety(
    load_counts: bool,
    cpu_count: usize,
    streaks: Map<u32, u32>,
    first: Seq<ProcInfo>,
    second: Seq<ProcInfo>,
    third: Snapshot,
    a: int,
    b: int,
    c: int,
)
    requires
        unique_pids(first),
        unique_pids(second),
        unique_pids(third.top_cpu@),
        0 <= a < first.len(),
        0 <= b < second.len(),
        0 <= c < third.top_cpu@.len(),
        first[a].pid == third.top_cpu@[c].pid,
        second[b].pid == third.top_cpu@[c].pid,
        first[a].cpu_pct.bits > 90 * 0x1_0000_0000,
        second[b].cpu_pct.bits > 90 * 0x1_0000_0000,
        third.top_cpu@[c].cpu_pct.bits > 90 * 0x1_0000_0000,
    ensures
        ({
            let now = next_streaks(next_streaks(next_streaks(streaks, first), second), third.top_cpu@);
            let found = findings_if(load_counts, third, cpu_count, now);
            &&& exists|k: int|
                0 <= k <= c && third.top_cpu@[k].cpu_pct.bits > 90 * 0x1_0000_0000
                    && #[trigger] has_key(
                    found,
                    "cpu_hog:"@ + decimal(third.top_cpu@[k].pid as nat),
                )
            &&& c == 0 ==> has_key(found, "cpu_hog:"@ + decimal(third.top_cpu@[c].pid as nat))
        }),
{
    let pid = third.top_cpu@[c].pid;
    let one = next_streaks(streaks, first);
    let two = next_streaks(one, second);
    let now = next_streaks(two, third.top_cpu@);
    law_streak_counts_samples(streaks, first);
    law_streak_counts_samples(one, second);
    law_streak_counts_samples(two, third.top_cpu@);
    assert(one.contains_key(first[a].pid) && one[pid] >= 1);
    assert(two.contains_key(second[b].pid) && two[pid] >= 2);
    assert(three_in_a_row(now, third.top_cpu@[c]));
    let k = lemma_first_in_a_row(now, third.top_cpu@, c);
    law_hog_is_reported(load_counts, third, cpu_count, now, k);
    assert(third.top_cpu@[k].cpu_pct.bits > 90 * 0x1_0000_0000) by {
        if third.top_cpu@[k].cpu_pct.bits <= 90 * 0x1_0000_0000 {
            assert(!now.contains_key(third.top_cpu@[k].pid));
        }
    }
}

proof fn lemma_first_in_a_row(streaks: Map<u32, u32>, procs: Seq<ProcInfo>, c: int) -> (k: int)
    requires
        0 <= c < procs.len(),
        three_in_a_row(streaks, procs[c]),
    ensures
        0 <= k <= c,
        three_in_a_row(streaks, procs[k]),
        forall|j: int| 0 <= j < k ==> !three_in_a_row(streaks, #[trigger] procs[j]),
    decreases c,
{
    if exists|j: int| 0 <= j < c && three_in_a_row(streaks, #[trigger] procs[j]) {
        let j = choose|j: int| 0 <= j < c && three_in_a_row(streaks, #[trigger] procs[j]);
        lemma_first_in_a_row(streaks, procs, j)
    } else {
        c
    }
}

// --------------------------------------------------------------- cooldown

/// Of what is found, a rule's alert is raised exactly when the rule has never
/// fired or the cooldown has passed since it did. Nothing is raised that was
/// not found, and a rule that is not found keeps the time it last fired.
pub proof fn law_raised_unless_cooling_down(
    last: Map<Seq<char>, u64>,
    cooldown: nat,
    now: u64,
    found: Seq<AlertView>,
    key: Seq<char>,
)
    ensures
        ({
            let (after, raised) = fire(last, cooldown, now, found);
            &&& has_key(raised, key) <==> has_key(found, key) && (!last.contains_key(key) || now
                - last[key] >= cooldown || cooldown == 0)
            &&& has_key(raised, key) ==> after.contains_key(key) && after[key] == now
            &&& !has_key(raised, key) ==> after.contains_key(key) == last.contains_key(key) && (
            last.contains_key(key) ==> after[key] == last[key])
            &&& forall|i: int| 0 <= i < raised.len() ==> found.contains(#[trigger] raised[i])
        }),
    decreases found.len(),
{
    let (after, raised) = fire(last, cooldown, now, found);
    if found.len() > 0 {
        let less = found.drop_last();
        let (fired, out) = fire(last, cooldown, now, less);
        law_raised_unless_cooling_down(last, cooldown, now, less, key);
        let a = found[found.len() - 1];
        lemma_has_key_add(less, seq![a], key);
        assert(less + seq![a] == found);
        lemma_has_key_add(out, seq![a], key);
        assert(out + seq![a] == out.push(a));
        if a.key == key {
            assert(seq![a][0].key == key);
        }
        assert forall|i: int| 0 <= i < raised.len() implies found.contains(#[trigger] raised[i]) by {
            if i < out.len() {
                assert(less.contains(out[i]));
                let j = choose|j: int| 0 <= j < less.len() && less[j] == out[i];
                assert(found[j] == raised[i]);
            } else {
                assert(found[found.len() - 1] == raised[i]);
            }
        }
    }
}

// --------------------------------------------------------------- contents

/// The consumer a memory alert names: the group with the most memory where
/// that is at least half as large again as the process with the most, and
/// that process where it is not.
pub open spec fn names_consumer(message: Seq<char>, snap: Snapshot) -> bool {
    let top = snap.top_mem@[0];
    let groups = snap.top_mem_groups@;
    if groups.len() > 0 && 2 * groups[0].total_mem_bytes >= 3 * top.mem_bytes {
        mentions(message, groups[0].name@ + " ("@ + decimal(groups[0].count as nat))
    } else {
        mentions(message, top.name@ + " ("@)
    }
}

proof fn lemma_names_consumer(before: Seq<char>, snap: Snapshot, after: Seq<char>)
    ensures
        names_consumer(
            before + mem_consumer(snap.top_mem@[0], snap.top_mem_groups@) + after,
            snap,
        ),
{
    let top = snap.top_mem@[0];
    let groups = snap.top_mem_groups@;
    let who = mem_consumer(top, groups);
    let message = before + who + after;
    if groups.len() > 0 && 2 * groups[0].total_mem_bytes >= 3 * top.mem_bytes {
        let part = groups[0].name@ + " ("@ + decimal(groups[0].count as nat);
        let rest = " processes, "@ + megabytes(groups[0].total_mem_bytes) + " MB combined)"@;
        assert(who =~= part + rest);
        assert(message =~= before + part + (rest + after));
    } else {
        let part = top.name@ + " ("@;
        let rest = megabytes(top.mem_bytes) + " MB)"@;
        assert(who =~= part + rest);
        assert(message =~= before + part + (rest + after));
    }
}

/// The alert about a high load points at the busiest process. It is its own
/// target, so that it is one incident whichever process that is.
pub proof fn law_load_alert(snap: Snapshot, cpu_count: usize)
    ensures
        forall|i: int|
            0 <= i < high_load(snap, cpu_count).len() ==> {
                let a = #[trigger] high_load(snap, cpu_count)[i];
                &&& a.target == Some("high_load"@)
                &&& a.command == Some(snap.top_cpu@[0].cmd@)
                &&& mentions(a.message, "Top consumer: "@ + snap.top_cpu@[0].name@)
                &&& ("Load average "@ + tenths(snap.load_avg.one.bits as nat, 0x1_0000_0000)
                    + " (threshold "@ + tenths(load_threshold(cpu_count), 2)).is_prefix_of(
                    a.message,
                )
            },
{
    if high_load(snap, cpu_count).len() > 0 {
        let a = high_load(snap, cpu_count)[0];
        let top = snap.top_cpu@[0];
        let head = "Load average "@ + tenths(snap.load_avg.one.bits as nat, ONE as nat)
            + " (threshold "@ + tenths(load_threshold(cpu_count), 2) + " for "@ + decimal(
            cpu_count as nat,
        ) + " cores). "@;
        let part = "Top consumer: "@ + top.name@;
        let tail = " ("@ + percent(top.cpu_pct.bits)
            + "% CPU). Suggestion: check the process and restart it if needed."@ + self_note(
            top.name@,
        );
        assert(" cores). Top consumer: "@ =~= " cores). "@ + "Top consumer: "@) by {
            reveal_strlit(" cores). Top consumer: ");
            reveal_strlit(" cores). ");
            reveal_strlit("Top consumer: ");
        }
        assert(a.message =~= head + part + tail);
        let start = "Load average "@ + tenths(snap.load_avg.one.bits as nat, ONE as nat)
            + " (threshold "@ + tenths(load_threshold(cpu_count), 2);
        assert(a.message.subrange(0, start.len() as int) =~= start);
    }
}

/// The alert about swap says how much is in use and names what uses the most
/// memory. It is its own target.
pub proof fn law_swap_alert(snap: Snapshot)
    ensures
        forall|i: int|
            0 <= i < swap_pressure(snap).len() ==> {
                let a = #[trigger] swap_pressure(snap)[i];
                &&& a.target == Some("swap_pressure"@)
                &&& a.command is None
                &&& names_consumer(a.message, snap)
                &&& mentions(a.message, gigabytes(snap.memory.swap_used_bytes) + " GB"@)
            },
{
    if swap_pressure(snap).len() > 0 {
        let a = swap_pressure(snap)[0];
        let gb = gigabytes(snap.memory.swap_used_bytes);
        let mid = " GB — memory is running out. Top consumer: "@;
        let end = ". Suggestion: close it or restart the machine."@;
        let who = mem_consumer(snap.top_mem@[0], snap.top_mem_groups@);
        lemma_names_consumer("Swap usage "@ + gb + mid, snap, end);
        let rest = " — memory is running out. Top consumer: "@;
        assert(mid =~= " GB"@ + rest) by {
            reveal_strlit(" GB — memory is running out. Top consumer: ");
            reveal_strlit(" GB");
            reveal_strlit(" — memory is running out. Top consumer: ");
        }
        assert(a.message =~= "Swap usage "@ + (gb + " GB"@) + (rest + who + end));
    }
}

/// The alert about low memory names what uses the most of it. It is its own
/// target.
pub proof fn law_memory_alert(snap: Snapshot)
    ensures
        forall|i: int|
            0 <= i < low_memory(snap).len() ==> {
                let a = #[trigger] low_memory(snap)[i];
                &&& a.target == Some("low_memory"@)
                &&& a.command is None
                &&& names_consumer(a.message, snap)
                &&& ("Only "@ + free_percent(snap.memory)).is_prefix_of(a.message)
            },
{
    if low_memory(snap).len() > 0 {
        lemma_names_consumer(
            "Only "@ + free_percent(snap.memory) + "% memory free. Top consumer: "@,
            snap,
            ". Suggestion: close unused applications."@,
        );
        let a = low_memory(snap)[0];
        let start = "Only "@ + free_percent(snap.memory);
        assert(a.message.subrange(0, start.len() as int) =~= start);
    }
}

/// The alert about the battery says how much is left and, where that is known,
/// for how long, and points at the busiest process. It is its own target.
pub proof fn law_battery_alert(snap: Snapshot, eta: Option<u128>)
    ensures
        forall|i: int|
            0 <= i < low_battery(snap, eta).len() ==> {
                let a = #[trigger] low_battery(snap, eta)[i];
                &&& a.target == Some("battery_low"@)
                &&& a.command == Some(snap.top_cpu@[0].cmd@)
                &&& mentions(a.message, "Top CPU consumer: "@ + snap.top_cpu@[0].name@)
                &&& mentions(a.message, "Battery at "@ + decimal(snap.battery->0.percentage->0 as nat) + "%"@)
                &&& eta is Some ==> mentions(a.message, "~"@ + eta_text(eta->0 as nat) + " left"@)
            },
{
    if low_battery(snap, eta).len() > 0 {
        let a = low_battery(snap, eta)[0];
        let top = snap.top_cpu@[0];
        let pct = "Battery at "@ + decimal(snap.battery->0.percentage->0 as nat) + "%"@;
        let left: Seq<char> = match eta {
            Some(d) => ", ~"@ + eta_text(d as nat) + " left"@,
            None => Seq::empty(),
        };
        let tail = " ("@ + percent(top.cpu_pct.bits)
            + "% CPU). Suggestion: close it if it is not needed, or plug in."@ + self_note(
            top.name@,
        );
        let part = "Top CPU consumer: "@ + top.name@;
        assert(". Top CPU consumer: "@ =~= ". "@ + "Top CPU consumer: "@) by {
            reveal_strlit(". Top CPU consumer: ");
            reveal_strlit(". ");
            reveal_strlit("Top CPU consumer: ");
        }
        assert(a.message =~= (pct + left + ". "@) + part + tail);
        assert(a.message =~= Seq::<char>::empty() + pct + (left + ". "@ + part + tail));
        if eta is Some {
            let span = "~"@ + eta_text(eta->0 as nat) + " left"@;
            assert(", ~"@ =~= ", "@ + "~"@) by {
                reveal_strlit(", ~");
                reveal_strlit(", ");
                reveal_strlit("~");
            }
            assert(a.message =~= (pct + ", "@) + span + (". "@ + part + tail));
        }
    }
}

/// A disk's alert stands for itself: it has no target. It starts with where
/// the disk is mounted and says how much of it is available.
pub proof fn law_disk_alert(disk: DiskInfo)
    ensures
        low_disk(disk).key == "low_disk:"@ + disk.mount_point@,
        low_disk(disk).target is None,
        low_disk(disk).command is None,
        (disk.mount_point@ + " has "@ + gigabytes(disk.available_bytes) + " GB free out of "@
            + gigabytes(disk.total_bytes) + " GB ("@ + percent(disk.used_pct.bits)).is_prefix_of(
            low_disk(disk).message,
        ),
{
    let head = disk.mount_point@ + " has "@ + gigabytes(disk.available_bytes) + " GB free out of "@
        + gigabytes(disk.total_bytes);
    let m = low_disk(disk).message;
    let part = head + " GB ("@ + percent(disk.used_pct.bits);
    assert(m.subrange(0, part.len() as int) =~= part);
}

/// The alert about a leaked group has the group for its target and says how
/// many instances there are and which have run the longest.
pub proof fn law_leaked_group_alert(group: ProcGroup)
    ensures
        high_process_count(group).target == Some(group.name@),
        (decimal(group.count as nat) + " "@ + group.name@).is_prefix_of(
            high_process_count(group).message,
        ),
        mentions(
            high_process_count(group).message,
            "Oldest: "@ + join(sample_texts(group.oldest@), ", "@),
        ),
{
    let m = high_process_count(group).message;
    let head = decimal(group.count as nat) + " "@ + group.name@;
    assert(m.subrange(0, head.len() as int) =~= head);
    let mark = "% combined CPU — possibly leaked. Oldest: "@;
    let first = "% combined CPU — possibly leaked. "@;
    assert(mark =~= first + "Oldest: "@) by {
        reveal_strlit("% combined CPU — possibly leaked. Oldest: ");
        reveal_strlit("% combined CPU — possibly leaked. ");
        reveal_strlit("Oldest: ");
    }
    let part = "Oldest: "@ + join(sample_texts(group.oldest@), ", "@);
    assert(m =~= (head + " processes at "@ + percent(group.total_cpu_pct.bits) + first) + part
        + ". Suggestion: check what they belong to before ending any of them."@);
}

/// A message admits this program's own overhead exactly when the process it
/// points at is this program.
pub proof fn law_own_overhead_is_admitted(name: Seq<char>)
    ensures
        self_note(name).len() > 0 <==> name == "vigil"@,
{
    reveal_strlit(" Note: this is vigil itself, so its own overhead is the problem here.");
}

/// A process's age is given in whole days from one day on, in whole hours
/// from one hour on, and in whole minutes below that.
pub proof fn law_age_is_rounded_down(secs: u64, n: nat)
    ensures
        n >= 1 && n * 86400 <= secs < (n + 1) * 86400 ==> age(secs) == decimal(n) + "d"@,
        1 <= n < 24 && n * 3600 <= secs < (n + 1) * 3600 ==> age(secs) == decimal(n) + "h"@,
        n < 60 && n * 60 <= secs < (n + 1) * 60 ==> age(secs) == decimal(n) + "m"@,
{
}

/// A number with one digit behind the point, from its tenths.
pub open spec fn one_decimal(k: nat) -> Seq<char> {
    decimal(k / 10) + "."@ + decimal(k % 10)
}

/// Sizes are given in millions and thousands of millions of bytes, to the
/// nearest digit that is shown: what is shown is off by half of its last digit
/// and a hundred bytes at most.
pub proof fn law_sizes(bytes: u64)
    requires
        bytes <= 0x20_0000_0000_0000,
    ensures
        exists|k: nat| #[trigger]
            decimal(k) == megabytes(bytes) && 2 * (k * 1000000) <= 2 * bytes + 1000000 + 120 && 2
                * bytes <= 2 * (k * 1000000) + 1000000 + 120,
        exists|k: nat| #[trigger]
            one_decimal(k) == megabyte_tenths(bytes) && 2 * (k * 1000000) <= 20 * bytes + 1000000
                + 120 && 20 * bytes <= 2 * (k * 1000000) + 1000000 + 120,
        exists|k: nat| #[trigger]
            one_decimal(k) == gigabytes(bytes) && 2 * (k * 1000000000) <= 20 * bytes + 1000000000
                + 120 && 20 * bytes <= 2 * (k * 1000000000) + 1000000000 + 120,
{
    reveal_strlit(".");
    assert("."@ =~= seq!['.']);
    let n = bytes as nat;
    let m = ratio(n, 1000000, DOUBLE as nat);
    let g = ratio(n, 1000000000, DOUBLE as nat);
    lemma_shown_size(n, 1000000, 1);
    lemma_shown_size(n, 1000000, 10);
    lemma_shown_size(n, 1000000000, 10);
    assert(m.0 * 1 == m.0);
    assert(decimal(nearest(m.0 * 1, m.1)) == megabytes(bytes));
    assert(one_decimal(nearest(m.0 * 10, m.1)) == megabyte_tenths(bytes));
    assert(one_decimal(nearest(g.0 * 10, g.1)) == gigabytes(bytes));
}

/// The share of memory that is free is given in percent to one digit: off by
/// half of that digit, and what a few hundred bytes make of it, at most.
pub proof fn law_free_share(m: MemoryInfo)
    requires
        0 < m.total_bytes <= 0x1_0000_0000_0000,
        m.free_bytes <= m.total_bytes,
    ensures
        exists|k: nat| #[trigger]
            one_decimal(k) == free_percent(m) && 2 * (k * m.total_bytes) <= 2000 * m.free_bytes
                + m.total_bytes + 640 && 2000 * m.free_bytes <= 2 * (k * m.total_bytes)
                + m.total_bytes + 640,
{
    reveal_strlit(".");
    assert("."@ =~= seq!['.']);
    let n = m.free_bytes as nat;
    let d = m.total_bytes as nat;
    let q = ratio(n, d, DOUBLE as nat);
    lemma_ratio_near(n, d);
    let p = whole(q.0 * 100, DOUBLE as nat);
    let half: nat = 0x10_0000_0000_0000;
    let h = half as int;
    lemma_whole_near(q.0 * 100, half);
    lemma_near_scale(p as int, (q.0 * 100) as int, 1, h, d as int);
    lemma_near_scale((q.0 * d) as int, (n * q.1) as int, 3, h, 100);
    assert((q.0 * 100) * d == (q.0 * d) * 100) by (nonlinear_arith);
    assert((n * q.1) * 100 >= 0) by (nonlinear_arith);
    lemma_near_trans(
        (p * d) as int,
        ((q.0 * 100) * d) as int,
        ((n * q.1) * 100) as int,
        1,
        3,
        h,
    );
    let s = q.1 as int;
    let x = (p * d) as int;
    let y = (n * s) * 100;
    assert(x - y <= 32 * s && y - x <= 32 * s) by (nonlinear_arith)
        requires
            (x - y) * 0x10_0000_0000_0000 <= 5 * y,
            (y - x) * 0x10_0000_0000_0000 <= 5 * y,
            y == (n * s) * 100,
            n <= 0x1_0000_0000_0000,
            s > 0,
    ;
    let k = nearest(p * 10, q.1);
    lemma_nearest_off(p * 10, q.1);
    let v = (k * d) as int;
    assert(2 * (v * s) <= 20 * x + d * s && 20 * x <= 2 * (v * s) + d * s) by (nonlinear_arith)
        requires
            2 * (k * s) <= 2 * (p * 10) + s,
            2 * (p * 10) <= 2 * (k * s) + s,
            v == k * d,
            x == p * d,
            d > 0,
    ;
    assert(2 * v <= 2000 * n + d + 640 && 2000 * n <= 2 * v + d + 640) by (nonlinear_arith)
        requires
            2 * (v * s) <= 20 * x + d * s,
            20 * x <= 2 * (v * s) + d * s,
            x - y <= 32 * s,
            y - x <= 32 * s,
            y == (n * s) * 100,
            s > 0,
    ;
    assert(one_decimal(k) == free_percent(m));
}

/// The alert about a hog names the process by its pid, and says how much of a
/// processor it uses and for how many samples.
pub proof fn law_hog_alert(streaks: Map<u32, u32>, p: ProcInfo)
    requires
        three_in_a_row(streaks, p),
    ensures
        ({
            let a = cpu_hog(streaks, seq![p])[0];
            (p.name@ + " (pid "@ + decimal(p.pid as nat) + ") has held "@ + percent(p.cpu_pct.bits)
                + "% CPU for "@ + decimal(streaks[p.pid] as nat)).is_prefix_of(a.message)
        }),
{
    let a = cpu_hog(streaks, seq![p])[0];
    let start = p.name@ + " (pid "@ + decimal(p.pid as nat) + ") has held "@ + percent(
        p.cpu_pct.bits,
    ) + "% CPU for "@ + decimal(streaks[p.pid] as nat);
    assert(seq![p][0] == p);
    assert(a.message.subrange(0, start.len() as int) =~= start);
}

/// The alerts about connections say how many there are, and stand for
/// themselves: they have no target.
pub proof fn law_connection_alerts(c: ConnectionCounts)
    ensures
        forall|i: int|
            0 <= i < crate::alerts::high_connection_count(c).len() ==> {
                let a = #[trigger] crate::alerts::high_connection_count(c)[i];
                &&& a.target is None
                &&& (decimal(c.total as nat) + " TCP connections ("@ + decimal(
                    c.established as nat,
                ) + " established, "@ + decimal(c.time_wait as nat) + " in TIME_WAIT, "@ + decimal(
                    c.close_wait as nat,
                )).is_prefix_of(a.message)
            },
        forall|i: int|
            0 <= i < crate::alerts::incoming_connections(c).len() ==> {
                let a = #[trigger] crate::alerts::incoming_connections(c)[i];
                &&& a.target is None
                &&& decimal(c.incoming as nat).is_prefix_of(a.message)
            },
{
    let high = crate::alerts::high_connection_count(c);
    if high.len() > 0 {
        let start = decimal(c.total as nat) + " TCP connections ("@ + decimal(
            c.established as nat,
        ) + " established, "@ + decimal(c.time_wait as nat) + " in TIME_WAIT, "@ + decimal(
            c.close_wait as nat,
        );
        assert(high[0].message.subrange(0, start.len() as int) =~= start);
    }
    let incoming = crate::alerts::incoming_connections(c);
    if incoming.len() > 0 {
        let start = decimal(c.incoming as nat);
        assert(incoming[0].message.subrange(0, start.len() as int) =~= start);
    }
}

/// A process to look at is given by its pid, its parent where it has one, and
/// its age.
pub proof fn law_sample_text(s: ProcSample)
    ensures
        s.ppid matches Some(parent) ==> crate::alerts::sample_text(s) == "pid "@ + decimal(
            s.pid as nat,
        ) + " (ppid "@ + decimal(parent as nat) + ", "@ + age(s.run_time_secs) + ")"@,
        s.ppid is None ==> crate::alerts::sample_text(s) == "pid "@ + decimal(s.pid as nat) + " ("@
            + age(s.run_time_secs) + ")"@,
{
}

/// What uses the most memory is named with the memory it uses.
pub proof fn law_consumer_is_sized(top: ProcInfo, groups: Seq<ProcGroup>)
    ensures
        groups.len() == 0 || 2 * groups[0].total_mem_bytes < 3 * top.mem_bytes ==> mem_consumer(
            top,
            groups,
        ) == top.name@ + " ("@ + megabytes(top.mem_bytes) + " MB)"@,
        groups.len() > 0 && 2 * groups[0].total_mem_bytes >= 3 * top.mem_bytes ==> mem_consumer(
            top,
            groups,
        ) == groups[0].name@ + " ("@ + decimal(groups[0].count as nat) + " processes, "@
            + megabytes(groups[0].total_mem_bytes) + " MB combined)"@,
{
}

/// A share of a processor is given to the nearest percent.
pub proof fn law_percent(bits: u64, k: nat)
    ensures
        2 * (k * 0x1_0000_0000) < 2 * bits + 0x1_0000_0000 && 2 * bits < 2 * (k * 0x1_0000_0000)
            + 0x1_0000_0000 ==> percent(bits) == decimal(k),
{
    crate::text_laws::law_shown_digits(bits as nat, 0x1_0000_0000, k);
}

/// The findings stand in a fixed order: the load, swap, memory, disks, the hog,
/// connections, leaked groups.
pub proof fn law_order_of_findings(snap: Snapshot, cpu_count: usize, streaks: Map<u32, u32>)
    ensures
        findings_if(true, snap, cpu_count, streaks) == high_load(snap, cpu_count) + (swap_pressure(
            snap,
        ) + low_memory(snap) + low_disks(snap.disks@) + cpu_hog(streaks, snap.top_cpu@)
            + connection_alerts(snap.connections) + leaked_groups(snap.top_mem_groups@)),
        findings_if(false, snap, cpu_count, streaks) == swap_pressure(snap) + low_memory(snap)
            + low_disks(snap.disks@) + cpu_hog(streaks, snap.top_cpu@) + connection_alerts(
            snap.connections,
        ) + leaked_groups(snap.top_mem_groups@),
        crate::alerts::findings(snap, cpu_count, streaks) == findings_if(
            true,
            snap,
            cpu_count,
            streaks,
        ),
{
    let others = other_findings(snap, streaks);
    assert(Seq::<AlertView>::empty() + others =~= others);
}

} // verus!
