//! The crash/restart scenario.

use ferrite::sim::scenario::run_crash_restart_scenario;

#[test]
fn crash_restart_converges_for_20_seeds() {
    for seed in 0..20 {
        let result = run_crash_restart_scenario(seed, 6);
        assert!(
            result.vote_once,
            "seed {seed}: vote-once violated across restarts"
        );
        assert!(
            result.logs_identical,
            "seed {seed}: logs diverged after crash/restart (crashes={})",
            result.crashes
        );
    }
}


#[test]
fn same_seed_is_deterministic_for_crash_restart() {
    let a = run_crash_restart_scenario(19, 5);
    let b = run_crash_restart_scenario(19, 5);
    assert_eq!(a, b);
}
