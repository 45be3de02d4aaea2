use mysticeti::{make_test_committee, Authority, AuthorityIndex, Committee, EpochNumber, Parameters, PublicKey};

fn committee(n: u8) -> Committee {
    Committee {
        authorities: (0..n)
            .map(|i| Authority { stake: i as u64 + 1, public_key: PublicKey([i; 32]), hostname: format!("h{}", i) })
            .collect(),
        epoch: EpochNumber(3),
        validity_threshold: 2,
        quorum_threshold: 3,
    }
}

#[test]
fn lookups_by_index_and_key() {
    let c = committee(4);
    assert_eq!(c.size(), 4);
    assert_eq!(c.authority(AuthorityIndex(2)).unwrap().stake, 3);
    assert!(c.authority(AuthorityIndex(4)).is_none());
    assert_eq!(c.get_public_key(AuthorityIndex(1)), Some(&PublicKey([1; 32])));
    assert_eq!(c.known_authority(&PublicKey([3; 32])), Some(AuthorityIndex(3)));
    assert_eq!(c.known_authority(&PublicKey([9; 32])), None);
}

#[test]
fn known_authority_returns_first_match() {
    let mut c = committee(3);
    c.authorities[2].public_key = PublicKey([1; 32]);
    assert_eq!(c.known_authority(&PublicKey([1; 32])), Some(AuthorityIndex(1)));
}

#[test]
fn total_stake_sums_stakes() {
    assert_eq!(committee(4).total_stake(), 10);
    assert_eq!(committee(0).total_stake(), 0);
}

#[test]
fn leader_election_is_stake_weighted() {
    // Stakes 1, 2, 3, 4: points 0 | 1..=2 | 3..=5 | 6..=9 of 10.
    let c = committee(4);
    assert_eq!(c.elect_leader(0, 0), AuthorityIndex(0));
    assert_eq!(c.elect_leader(1, 0), AuthorityIndex(1));
    assert_eq!(c.elect_leader(3, 0), AuthorityIndex(2));
    assert_eq!(c.elect_leader(6, 0), AuthorityIndex(3));
    // Further offsets take the next members with stake, cyclically.
    assert_eq!(c.elect_leader(6, 1), AuthorityIndex(0));
    assert_eq!(c.elect_leader(6, 2), AuthorityIndex(1));
    assert_eq!(c.elect_leader(9, 0), AuthorityIndex(3));
    assert_eq!(c.elect_leader(10, 0), AuthorityIndex(0));
    assert_eq!(c.elect_leader(u64::MAX, u32::MAX), AuthorityIndex(1));
    assert_eq!(committee(0).elect_leader(17, 2), AuthorityIndex(0));
}

#[test]
fn leaders_of_one_round_are_distinct() {
    let mut c = committee(2);
    c.authorities[0].stake = 3;
    c.authorities[1].stake = 1;
    for round in 0..8u64 {
        assert_ne!(c.elect_leader(round, 0), c.elect_leader(round, 1));
    }
    assert_eq!(c.elect_leader(0, 0), AuthorityIndex(0));
    assert_eq!(c.elect_leader(0, 1), AuthorityIndex(1));
    assert_eq!(c.elect_leader(3, 0), AuthorityIndex(1));
    assert_eq!(c.elect_leader(3, 1), AuthorityIndex(0));
}

#[test]
fn zero_stake_member_is_never_elected() {
    let mut c = committee(4);
    c.authorities[0].stake = 0;
    for round in 0..40u64 {
        for offset in 0..3u32 {
            assert_ne!(c.elect_leader(round, offset), AuthorityIndex(0));
        }
    }
    // The leaders of one round are distinct members with stake.
    for round in 0..20u64 {
        let leaders: Vec<_> = (0..3u32).map(|o| c.elect_leader(round, o)).collect();
        assert!(leaders[0] != leaders[1] && leaders[0] != leaders[2] && leaders[1] != leaders[2]);
    }
    // Without any stake the election rotates.
    for a in c.authorities.iter_mut() {
        a.stake = 0;
    }
    assert_eq!(c.elect_leader(5, 0), AuthorityIndex(1));
    assert_eq!(c.elect_leader(6, 1), AuthorityIndex(3));
}

#[test]
fn genesis_block_is_empty_round_zero() {
    let c = committee(2);
    let g = c.genesis_blocks(AuthorityIndex(1));
    assert_eq!(g.len(), 1);
    let b = g[0].inner();
    assert_eq!(b.creator, AuthorityIndex(1));
    assert_eq!(b.round, 0);
    assert_eq!(b.digest.0, [0u8; 32]);
    assert_eq!(b.epoch, EpochNumber(3));
    assert!(b.includes.is_empty() && b.statements.is_empty() && b.signature.0.is_empty());
}

#[test]
fn test_committee_has_four_validators() {
    let (c, p) = make_test_committee();
    assert_eq!(c.size(), 4);
    assert_eq!(c.quorum_threshold, 3);
    assert_eq!(c.validity_threshold, 2);
    assert_eq!(c.authorities[2].hostname, "validator-2");
    assert_eq!(c.authorities[3].public_key, PublicKey([3; 32]));
    assert_eq!(p.identifiers.len(), 4);
    assert_eq!(p.identifiers[1].network_address, "127.0.0.1:9001");
    assert_eq!(p.identifiers[1].metrics_address, "127.0.0.1:9101");
    assert_eq!(p.wave_length, 3);
}

#[test]
fn default_parameters() {
    let p = Parameters::default();
    assert!(p.identifiers.is_empty());
    assert_eq!(p.wave_length, 3);
    assert_eq!(p.leader_timeout_ms, 5_000);
    assert_eq!(p.rounds_in_epoch, 100);
    assert_eq!(p.shutdown_grace_period_ms, 30_000);
    assert_eq!(p.number_of_leaders, 1);
    assert!(!p.enable_pipelining);
    assert_eq!(p.store_retain_rounds, 1000);
    assert!(p.enable_cleanup);
}
