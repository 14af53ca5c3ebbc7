//! The commands of the program and what each of them runs with.
use crate::alerts::optional_str;
use crate::battery::NANOS_PER_SEC;
use crate::menubar::MenubarOptions;
use crate::ui::UiOptions;
use crate::watch::WatchArgs;
use vstd::prelude::*;

verus! {

pub const DEFAULT_TOP: usize = 10;

pub const DEFAULT_WATCH_INTERVAL: u64 = 5;

pub const DEFAULT_WATCH_COUNT: u64 = 0;

pub const DEFAULT_COOLDOWN_SECS: u64 = 300;

pub const DEFAULT_UI_INTERVAL: u64 = 1;

pub const DEFAULT_UI_TOP: usize = 15;

pub const DEFAULT_LIST_LIMIT: usize = 20;

pub const DEFAULT_POLL_SECS: u64 = 3;

pub struct Cli {
    pub command: Commands,
}

pub enum Commands {
    /// Print one snapshot in JSON.
    Snapshot { top: usize },
    /// Sample without end and append snapshots to a file.
    Watch {
        interval: u64,
        count: u64,
        out: String,
        top: usize,
        no_notify: bool,
        cooldown_secs: u64,
        incidents_dir: String,
        status_file: String,
    },
    /// Show the dashboard.
    Ui {
        interval: u64,
        top: usize,
        no_notify: bool,
        cooldown_secs: u64,
        agent_dir: String,
        incidents_dir: String,
    },
    /// List the journal or show an incident in it.
    Incidents { dir: String, show: Option<String>, limit: usize, json: bool },
    /// Have the agent diagnose an incident.
    Investigate {
        alert_key: String,
        agent_dir: String,
        incidents_dir: String,
        watch_log: Option<String>,
    },
    /// Execute a plan that an investigation proposed, step by step as
    /// approved.
    Fix { incident_file: String, agent_dir: String },
    /// Show the health indicator.
    Menubar { status_file: String, incidents_dir: String, poll_secs: u64 },
}

/// The directory of the journal, by default.
pub fn default_incidents_dir(home: Option<&str>) -> (r: String)
    ensures
        r@ == crate::incidents::journal_dir(optional_str(home)),
{
    crate::incidents::default_dir(home)
}

/// Where the status file is kept, by default.
pub fn default_status_file(home: Option<&str>) -> (r: String)
    ensures
        r@ == crate::menubar::status_path(optional_str(home)),
{
    crate::menubar::default_status_file(home)
}

/// What to run.
pub enum Job {
    Snapshot { top: usize },
    Watch(WatchArgs),
    Ui(UiOptions),
    Incidents { dir: String, show: Option<String>, limit: usize, json: bool },
    Investigate {
        alert_key: String,
        agent_dir: String,
        incidents_dir: String,
        watch_log: Option<String>,
    },
    Fix { incident_file: String, agent_dir: String },
    Menubar(MenubarOptions),
}

/// A number of seconds in nanoseconds.
pub open spec fn nanos(secs: u64) -> nat {
    secs as nat * NANOS_PER_SEC as nat
}

fn secs_to_nanos(secs: u64) -> (r: u128)
    ensures
        r == nanos(secs),
{
    assert(secs * NANOS_PER_SEC <= u128::MAX) by (nonlinear_arith)
        requires
            0 <= secs <= 0xffff_ffff_ffff_ffff,
            NANOS_PER_SEC == 1000000000,
    ;
    secs as u128 * NANOS_PER_SEC
}

/// What a command runs.
pub open spec fn runs(command: Commands, job: Job) -> bool {
    match command {
        Commands::Snapshot { top } => job == Job::Snapshot { top },
        Commands::Watch {
            interval,
            count,
            out,
            top,
            no_notify,
            cooldown_secs,
            incidents_dir,
            status_file,
        } => job == Job::Watch(
            WatchArgs {
                interval,
                count,
                out,
                top,
                no_notify,
                cooldown_secs,
                incidents_dir,
                status_file,
            },
        ),
        Commands::Ui { interval, top, no_notify, cooldown_secs, agent_dir, incidents_dir } => job
            == Job::Ui(
            UiOptions {
                interval: nanos(interval) as u128,
                top_n: top,
                notify: !no_notify,
                cooldown: nanos(cooldown_secs) as u128,
                agent_dir,
                incidents_dir,
            },
        ),
        Commands::Incidents { dir, show, limit, json } => job == Job::Incidents {
            dir,
            show,
            limit,
            json,
        },
        Commands::Investigate { alert_key, agent_dir, incidents_dir, watch_log } => job
            == Job::Investigate { alert_key, agent_dir, incidents_dir, watch_log },
        Commands::Fix { incident_file, agent_dir } => job == Job::Fix { incident_file, agent_dir },
        Commands::Menubar { status_file, incidents_dir, poll_secs } => job == Job::Menubar(
            MenubarOptions {
                status_file,
                incidents_dir,
                poll_interval: nanos(poll_secs) as u128,
            },
        ),
    }
}

/// What a command runs: its arguments in the units that the work is done in.
pub fn job_for(cli: Cli) -> (r: Job)
    ensures
        runs(cli.command, r),
{
    match cli.command {
        Commands::Snapshot { top } => Job::Snapshot { top },
        Commands::Watch {
            interval,
            count,
            out,
            top,
            no_notify,
            cooldown_secs,
            incidents_dir,
            status_file,
        } => Job::Watch(
            WatchArgs {
                interval,
                count,
                out,
                top,
                no_notify,
                cooldown_secs,
                incidents_dir,
                status_file,
            },
        ),
        Commands::Ui { interval, top, no_notify, cooldown_secs, agent_dir, incidents_dir } => Job::Ui(
            UiOptions {
                interval: secs_to_nanos(interval),
                top_n: top,
                notify: !no_notify,
                cooldown: secs_to_nanos(cooldown_secs),
                agent_dir,
                incidents_dir,
            },
        ),
        Commands::Incidents { dir, show, limit, json } => Job::Incidents { dir, show, limit, json },
        Commands::Investigate { alert_key, agent_dir, incidents_dir, watch_log } => {
            Job::Investigate { alert_key, agent_dir, incidents_dir, watch_log }
        },
        Commands::Fix { incident_file, agent_dir } => Job::Fix { incident_file, agent_dir },
        Commands::Menubar { status_file, incidents_dir, poll_secs } => Job::Menubar(
            MenubarOptions {
                status_file,
                incidents_dir,
                poll_interval: secs_to_nanos(poll_secs),
            },
        ),
    }
}

/// Seconds on the command line are nanoseconds inside, and notifications are
/// on unless they were turned off.
pub proof fn law_options(command: Commands, job: Job)
    requires
        runs(command, job),
    ensures
        command matches Commands::Ui {
            interval,
            top,
            no_notify,
            cooldown_secs,
            agent_dir,
            incidents_dir,
        } ==> (job matches Job::Ui(o) && o.interval == interval * 1000000000 && o.cooldown
            == cooldown_secs * 1000000000 && o.notify == !no_notify && o.top_n == top && o.agent_dir
            == agent_dir && o.incidents_dir == incidents_dir),
        command matches Commands::Menubar { status_file, incidents_dir, poll_secs } ==> (job
            matches Job::Menubar(o) && o.poll_interval == poll_secs * 1000000000 && o.status_file
            == status_file && o.incidents_dir == incidents_dir),
        command matches Commands::Watch {
            interval,
            count,
            out,
            top,
            no_notify,
            cooldown_secs,
            incidents_dir,
            status_file,
        } ==> (job matches Job::Watch(o) && o.interval == interval && o.count == count && o.out
            == out && o.top == top && o.no_notify == no_notify && o.cooldown_secs == cooldown_secs
            && o.incidents_dir == incidents_dir && o.status_file == status_file),
        command matches Commands::Snapshot { top } ==> job == (Job::Snapshot { top }),
        command matches Commands::Incidents { dir, show, limit, json } ==> job
            == (Job::Incidents { dir, show, limit, json }),
        command matches Commands::Investigate {
            alert_key,
            agent_dir,
            incidents_dir,
            watch_log,
        } ==> job == (Job::Investigate { alert_key, agent_dir, incidents_dir, watch_log }),
        command matches Commands::Fix { incident_file, agent_dir } ==> job == (Job::Fix {
            incident_file,
            agent_dir,
        }),
{
}

} // verus!
