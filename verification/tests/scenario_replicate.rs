//! The replication scenario.

use ferrite::sim::scenario::run_replicate_scenario;

#[test]
fn replicate_100_writes_identical_logs_for_20_seeds() {
    for seed in 0..20 {
        let result = run_replicate_scenario(seed, 100);
        assert!(
            result.logs_identical,
            "seed {seed}: logs diverged (len={})",
            result.log_len
        );
        assert_eq!(result.log_len, 100, "seed {seed}: expected 100 entries");
    }
}


#[test]
fn same_seed_is_deterministic_for_replicate() {
    let a = run_replicate_scenario(7, 10);
    let b = run_replicate_scenario(7, 10);
    assert_eq!(a, b);
}
