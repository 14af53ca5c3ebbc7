//! A lightweight monitor of a machine's resources: what it concludes from
//! what it is told.
//!
//! Nothing here touches the machine. Samples, files and answers come in as
//! plain values, and what is to be shown, written or run goes out as plain
//! values.
//!
//! - [`snapshot`] makes a snapshot of what was collected, and reads what
//!   `pmset` and `netstat` print.
//! - [`alerts`] holds the rules that fire, and keeps repeats in one incident.
//! - [`incidents`] is the journal, in markdown; [`journal_laws`] says that
//!   what is written there can be read back.
//! - [`fixplan`] and [`fix_process`] read a proposed plan and keep to what was
//!   approved of it.
//! - [`agent`], [`investigate`] and [`incidents_cmd`] are about asking for a
//!   diagnosis and looking at it.
//! - [`watch`], [`ui`], [`ui_loop`], [`menubar`] and [`menubar_loop`] decide
//!   for the programs that run on.
//! - [`alert_laws`], [`snapshot_laws`] and [`text_laws`] say what all that
//!   comes to, of numbers, names and characters.
//! - [`number`] and [`float`] are about numbers: how they are written, and
//!   what they come to in floating point.
//! - [`incident_window`], [`process_tree`] and [`vigil_cli`] decide for the
//!   desktop window.
pub mod agent;
pub mod alert_laws;
pub mod alerts;
pub mod battery;
pub mod cli;
pub mod fix_process;
pub mod fixplan;
pub mod float;
pub mod incident_window;
pub mod incidents;
pub mod incidents_cmd;
pub mod investigate;
pub mod journal_laws;
pub mod json;
pub mod menubar;
pub mod menubar_loop;
pub mod notify;
pub mod number;
pub mod order;
pub mod paths;
pub mod process_tree;
pub mod snapshot;
pub mod snapshot_laws;
pub mod stamps;
pub mod text;
pub mod text_laws;
pub mod ui;
pub mod ui_loop;
pub mod url;
pub mod vigil_cli;
pub mod watch;

pub use snapshot::{
    take_snapshot, BatteryInfo, ConnectionCounts, DiskInfo, LoadAvg, MemoryInfo, ProcGroup,
    ProcInfo, ProcSample, Snapshot,
};
