//! The election scenario.

use ferrite::raft::state::RaftState;
use ferrite::raft::RaftNode;
use ferrite::sim::scenario::{elect_within, run_election_scenario};
use ferrite::sim::{node_rng, Simulator};

#[test]
fn elects_exactly_one_leader_within_600_ticks_for_100_seeds() {
    for seed in 0..100 {
        let result = elect_within(seed, 600);
        assert_eq!(
            result.leaders.len(),
            1,
            "seed {seed}: expected one leader, got {:?} after {} ticks",
            result.leaders,
            result.ticks_run
        );
        assert!(
            result.ticks_run <= 600,
            "seed {seed}: election took {} ticks",
            result.ticks_run
        );
    }
}


#[test]
fn same_seed_is_deterministic_for_election() {
    let a = elect_within(7, 600);
    let b = elect_within(7, 600);
    assert_eq!(a, b);
}

#[test]
fn leader_remains_alone_after_extra_ticks() {
    let result = elect_within(11, 600);
    assert_eq!(result.leaders.len(), 1);

    // Continue the same cluster far past election and ensure no second leader.
    let ids = [1_u64, 2, 3];
    let nodes: Vec<RaftNode> = ids
        .iter()
        .map(|&id| {
            let peers: Vec<u64> = ids.iter().copied().filter(|&peer| peer != id).collect();
            RaftNode::with_rng(id, peers, node_rng(11, id))
        })
        .collect();
    let mut sim = Simulator::new(11, nodes);
    sim.run(result.ticks_run + 200);

    let leaders: Vec<_> = sim
        .nodes()
        .iter()
        .filter(|(_, n)| n.state() == RaftState::Leader)
        .map(|(&id, _)| id)
        .collect();
    assert_eq!(leaders.len(), 1, "expected stable single leader, got {leaders:?}");
}

#[test]
fn run_election_scenario_reports_leaders() {
    let result = run_election_scenario(3, 600);
    assert_eq!(result.seed, 3);
    assert!(result.leaders.len() <= 1);
}

#[test]
fn the_scenario_stops_at_the_first_leader() {
    for seed in [0, 7, 11] {
        for max_ticks in [0, 1, 100, 600] {
            let result = elect_within(seed, max_ticks);
            assert!(result.ticks_run <= max_ticks);
            assert!(result.leaders.windows(2).all(|pair| pair[0] < pair[1]));
            assert!(result.leaders.iter().all(|id| (1..=3).contains(id)));
            match result.leaders.as_slice() {
                [leader] => assert_eq!(result.leader_id, Some(*leader)),
                _ => {
                    assert_eq!(result.leader_id, None);
                    assert_eq!(result.ticks_run, max_ticks);
                }
            }
            for ticks in (0..result.ticks_run).step_by(50) {
                assert_ne!(run_election_scenario(seed, ticks).leaders.len(), 1);
            }
            assert_eq!(
                run_election_scenario(seed, result.ticks_run).leaders,
                result.leaders
            );
        }
    }
}
