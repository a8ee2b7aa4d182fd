//! Acceptance scenarios for the simulator.

pub mod crash_restart;
pub mod election;
pub mod replicate;
pub mod reports;

pub use crash_restart::{run_crash_restart_scenario, CrashRestartResult};
pub use election::{elect_within, run_election_scenario, ElectionScenarioResult};
pub use replicate::{run_replicate_scenario, ReplicateScenarioResult};
