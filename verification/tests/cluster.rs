use bytes::Bytes;
use kepler::raft::state::Role;
use kepler::server::cluster::Cluster;
use kepler::server::state_machine::encode_put;
use kepler::types::{Error, NodeId};

/// Run ticks until any node is leader, or fail.
fn run_until_leader(cluster: &mut Cluster, max_ticks: u32) -> NodeId {
    for _ in 0..max_ticks {
        cluster.tick_all();
        cluster.step(200);
        if let Some(leader) = cluster.find_leader() {
            return leader;
        }
    }
    panic!(
        "no leader elected within {} ticks; roles = {:?}",
        max_ticks,
        cluster
            .ids()
            .into_iter()
            .map(|id| (id, cluster.role(id), cluster.term(id)))
            .collect::<Vec<_>>()
    );
}

#[test]
fn three_node_cluster_elects_a_leader() {
    let mut cluster = Cluster::new(vec![1, 2, 3]);
    let leader = run_until_leader(&mut cluster, 30);
    assert_eq!(leader, 1);
    assert_eq!(cluster.term(1), Some(1));
}

#[test]
fn replicated_writes_propagate_to_all_nodes() {
    let mut cluster = Cluster::new(vec![1, 2, 3]);
    run_until_leader(&mut cluster, 30);

    cluster.put_at_leader(b"k", b"v").unwrap();
    cluster.run_for(5, 200);

    for id in cluster.ids() {
        let v = cluster.engine_get(id, b"k");
        assert_eq!(v.as_deref(), Some(&b"v"[..]), "node {} missing replicated data", id);
    }
}

#[test]
fn delete_propagates_to_followers() {
    let mut cluster = Cluster::new(vec![1, 2, 3]);
    run_until_leader(&mut cluster, 30);

    cluster.put_at_leader(b"k", b"v").unwrap();
    cluster.run_for(5, 200);
    cluster.delete_at_leader(b"k").unwrap();
    cluster.run_for(5, 200);

    for id in cluster.ids() {
        assert!(cluster.engine_get(id, b"k").is_none(), "node {} still has deleted key", id);
    }
}

#[test]
fn cluster_survives_follower_death() {
    let mut cluster = Cluster::new(vec![1, 2, 3]);
    run_until_leader(&mut cluster, 30);
    cluster.kill(3);

    cluster.put_at_leader(b"k", b"v").unwrap();
    cluster.run_for(10, 200);

    assert_eq!(cluster.engine_get(1, b"k").as_deref(), Some(&b"v"[..]));
    assert_eq!(cluster.engine_get(2, b"k").as_deref(), Some(&b"v"[..]));
    assert!(cluster.engine_get(3, b"k").is_none());
}

#[test]
fn leader_death_triggers_failover() {
    let mut cluster = Cluster::new(vec![1, 2, 3]);
    let leader = run_until_leader(&mut cluster, 30);

    cluster.put_at_leader(b"early", b"v1").unwrap();
    cluster.run_for(5, 200);

    cluster.kill(leader);

    let new_leader = run_until_leader(&mut cluster, 50);
    assert_ne!(new_leader, leader);

    cluster.put_at_leader(b"late", b"v2").unwrap();
    cluster.run_for(10, 200);

    for id in cluster.alive_ids() {
        assert_eq!(
            cluster.engine_get(id, b"early").as_deref(),
            Some(&b"v1"[..]),
            "live node {} missing pre-failover write",
            id
        );
        assert_eq!(
            cluster.engine_get(id, b"late").as_deref(),
            Some(&b"v2"[..]),
            "live node {} missing post-failover write",
            id
        );
    }
}

#[test]
fn minority_partition_cannot_commit() {
    let mut cluster = Cluster::new(vec![1, 2, 3]);
    let leader = run_until_leader(&mut cluster, 30);

    cluster.put_at_leader(b"k0", b"v0").unwrap();
    cluster.run_for(5, 200);

    cluster.isolate(leader);

    cluster.run_for(80, 200);
    let new_leader = cluster.find_leader().expect("majority elects new leader");
    assert_ne!(new_leader, leader);

    cluster.propose_to(new_leader, encode_put(b"k_new", b"v_new")).unwrap();
    cluster.run_for(10, 200);

    for id in cluster.ids().into_iter().filter(|&id| id != leader) {
        assert_eq!(
            cluster.engine_get(id, b"k_new").as_deref(),
            Some(&b"v_new"[..]),
            "majority node {} missing new write",
            id
        );
    }
    assert!(cluster.engine_get(leader, b"k_new").is_none());
}

#[test]
fn partition_heal_converges_state() {
    let mut cluster = Cluster::new(vec![1, 2, 3]);
    let old_leader = run_until_leader(&mut cluster, 30);

    cluster.put_at_leader(b"k0", b"v0").unwrap();
    cluster.run_for(5, 200);

    cluster.isolate(old_leader);
    cluster.run_for(80, 200);
    let new_leader = cluster.find_leader().expect("majority elects new leader");
    assert_ne!(new_leader, old_leader);

    cluster.propose_to(new_leader, encode_put(b"k_new", b"v_new")).unwrap();
    cluster.run_for(10, 200);

    cluster.heal();
    cluster.run_for(50, 200);

    for id in cluster.ids() {
        assert_eq!(
            cluster.engine_get(id, b"k0").as_deref(),
            Some(&b"v0"[..]),
            "node {} missing pre-partition write after heal",
            id
        );
        assert_eq!(
            cluster.engine_get(id, b"k_new").as_deref(),
            Some(&b"v_new"[..]),
            "node {} missing post-partition write after heal",
            id
        );
    }
}

#[test]
fn many_proposals_all_apply_in_order_on_followers() {
    let mut cluster = Cluster::new(vec![1, 2, 3]);
    run_until_leader(&mut cluster, 30);

    for i in 0..50u32 {
        let key = format!("k{:03}", i);
        let value = format!("v{:03}", i);
        cluster.put_at_leader(key.as_bytes(), value.as_bytes()).unwrap();
    }
    cluster.run_for(20, 200);

    for id in cluster.ids() {
        assert_eq!(cluster.applied_index(id), Some(50), "node {} applied_index wrong", id);
        for i in 0..50u32 {
            let key = format!("k{:03}", i);
            let value = format!("v{:03}", i);
            assert_eq!(
                cluster.engine_get(id, key.as_bytes()).as_deref(),
                Some(value.as_bytes()),
                "node {} missing key {}",
                id,
                key
            );
        }
    }
}

#[test]
fn an_isolated_leader_commits_nothing() {
    let mut cluster = Cluster::new(vec![1, 2, 3]);
    let leader = run_until_leader(&mut cluster, 30);
    cluster.isolate(leader);
    cluster.propose_to(leader, encode_put(b"lost", b"v")).unwrap();
    cluster.run_for(5, 200);
    assert!(cluster.engine_get(leader, b"lost").is_none());
    assert_eq!(cluster.applied_index(leader), Some(0));
}

#[test]
fn no_term_has_two_leaders() {
    let mut cluster = Cluster::new(vec![1, 2, 3, 4, 5]);
    let mut seen: Vec<(u64, NodeId)> = Vec::new();
    for round in 0..200u32 {
        if round % 37 == 20 {
            if let Some(leader) = cluster.find_leader() {
                cluster.isolate(leader);
            }
        }
        if round % 37 == 36 {
            cluster.heal();
        }
        cluster.run_for(1, 50);
        for id in cluster.ids() {
            if cluster.role(id) == Some(Role::Leader) {
                let term = cluster.term(id).unwrap();
                assert!(seen.iter().all(|&(t, other)| t != term || other == id));
                seen.push((term, id));
            }
        }
    }
    assert!(!seen.is_empty());
}

#[test]
fn proposals_that_fail_say_why() {
    let mut cluster = Cluster::new(vec![1, 2, 3]);
    let cmd = || encode_put(b"k", b"v");
    assert_eq!(cluster.put_at_leader(b"k", b"v").unwrap_err().message(), "internal: no leader");
    assert_eq!(
        cluster.propose_to(9, cmd()).unwrap_err().message(),
        "invalid argument: no such node 9"
    );
    assert!(matches!(cluster.propose_to(2, cmd()), Err(Error::NotLeader(None))));
    cluster.kill(2);
    assert_eq!(cluster.propose_to(2, cmd()).unwrap_err().message(), "internal: node 2 is dead");
    assert_eq!(cluster.alive_ids(), vec![1, 3]);
    cluster.revive(2);
    assert_eq!(cluster.alive_ids(), vec![1, 2, 3]);
}

#[test]
fn cuts_go_both_ways() {
    let mut cluster = Cluster::new(vec![1, 2, 3]);
    cluster.partition(1, 2);
    assert!(cluster.is_partitioned(1, 2));
    assert!(cluster.is_partitioned(2, 1));
    assert!(!cluster.is_partitioned(1, 3));
    cluster.heal();
    assert!(!cluster.is_partitioned(1, 2));
    cluster.isolate(3);
    assert!(cluster.is_partitioned(3, 1) && cluster.is_partitioned(2, 3));
    assert!(!cluster.is_partitioned(1, 2));
}

#[test]
fn nobody_is_nowhere() {
    let cluster = Cluster::new(vec![4]);
    assert_eq!(cluster.role(1), None);
    assert_eq!(cluster.term(1), None);
    assert_eq!(cluster.applied_index(1), None);
    assert_eq!(cluster.engine_get(1, b"k"), None::<Bytes>);
    assert_eq!(cluster.ids(), vec![4]);
}

#[test]
fn a_command_that_is_none_is_passed_over() {
    let mut cluster = Cluster::new(vec![1]);
    run_until_leader(&mut cluster, 30);
    cluster.propose_to(1, Bytes::from_static(&[42])).unwrap();
    cluster.put_at_leader(b"k", b"v").unwrap();
    cluster.run_for(2, 10);
    assert_eq!(cluster.engine_get(1, b"k").as_deref(), Some(&b"v"[..]));
    assert_eq!(cluster.applied_index(1), Some(2));
}

#[test]
fn a_deposed_leader_takes_the_entries_of_the_new_one() {
    let mut cluster = Cluster::new(vec![1, 2, 3]);
    let old = run_until_leader(&mut cluster, 30);
    cluster.put_at_leader(b"k", b"first").unwrap();
    cluster.run_for(5, 200);
    cluster.isolate(old);
    cluster.propose_to(old, encode_put(b"k", b"stale")).unwrap();
    cluster.run_for(80, 200);
    let new = cluster.find_leader().unwrap();
    assert_ne!(new, old);
    cluster.propose_to(new, encode_put(b"k", b"second")).unwrap();
    cluster.run_for(10, 200);
    cluster.heal();
    cluster.run_for(30, 200);
    for id in cluster.ids() {
        assert_eq!(cluster.engine_get(id, b"k").as_deref(), Some(&b"second"[..]));
        assert_eq!(cluster.applied_index(id), Some(2));
    }
}

#[test]
fn the_lowest_id_wins_a_cold_start_in_whatever_order_the_ids_come() {
    for ids in [vec![3, 2, 1], vec![2, 3, 1], vec![1, 2, 3], vec![40, 7, 90, 1, 12], vec![5]] {
        let lowest = *ids.iter().min().unwrap();
        let mut cluster = Cluster::new(ids.clone());
        cluster.run_for(30, 200);
        assert_eq!(cluster.find_leader(), Some(lowest));
        assert_eq!(cluster.term(lowest), Some(1));
        for id in ids {
            let role = if id == lowest { Role::Leader } else { Role::Follower };
            assert_eq!(cluster.role(id), Some(role));
        }
    }
}

#[test]
fn one_round_a_tick_is_enough_for_the_lowest_id() {
    let mut cluster = Cluster::new(vec![9, 4, 6]);
    cluster.run_for(11, 1);
    assert_eq!(cluster.find_leader(), None);
    cluster.run_for(1, 1);
    assert_eq!(cluster.find_leader(), Some(4));
    cluster.run_for(100, 1);
    assert_eq!(cluster.find_leader(), Some(4));
    assert_eq!(cluster.term(4), Some(1));
}

#[test]
fn commands_reach_every_member_in_order() {
    let mut cluster = Cluster::new(vec![8, 3, 5, 4]);
    cluster.run_for(12, 1);
    for i in 0..6u8 {
        assert_eq!(cluster.put_at_leader(&[b'k', i % 3], &[i]).unwrap(), 3);
        cluster.run_for(5, 1);
        for id in cluster.ids() {
            assert_eq!(cluster.applied_index(id), Some(i as u64 + 1));
            assert_eq!(cluster.engine_get(id, &[b'k', i % 3]).as_deref(), Some(&[i][..]));
        }
    }
    cluster.delete_at_leader(&[b'k', 1]).unwrap();
    cluster.run_for(5, 200);
    for id in cluster.ids() {
        assert_eq!(cluster.engine_get(id, &[b'k', 0]).as_deref(), Some(&[3u8][..]));
        assert_eq!(cluster.engine_get(id, &[b'k', 1]), None);
        assert_eq!(cluster.engine_get(id, &[b'k', 2]).as_deref(), Some(&[5u8][..]));
        assert_eq!(cluster.applied_index(id), Some(7));
    }
}

#[test]
fn a_lone_node_carries_commands_out() {
    let mut cluster = Cluster::new(vec![7]);
    cluster.run_for(12, 1);
    cluster.put_at_leader(b"a", b"1").unwrap();
    cluster.run_for(5, 1);
    assert_eq!(cluster.engine_get(7, b"a").as_deref(), Some(&b"1"[..]));
}

#[test]
fn a_leader_that_is_cut_off_again_commits_nothing_alone() {
    let mut cluster = Cluster::new(vec![1, 2, 3]);
    let old = run_until_leader(&mut cluster, 30);
    cluster.isolate(old);
    for key in [b"a", b"b", b"c"] {
        cluster.propose_to(old, encode_put(key, b"stale")).unwrap();
    }
    cluster.run_for(80, 200);
    let new = cluster.find_leader().unwrap();
    assert_ne!(new, old);
    cluster.heal();
    cluster.tick_all();
    cluster.step(3);
    cluster.isolate(new);
    cluster.propose_to(new, encode_put(b"alone", b"v")).unwrap();
    cluster.run_for(5, 200);
    assert!(cluster.engine_get(new, b"alone").is_none());
    assert_eq!(cluster.applied_index(new), Some(0));
    cluster.run_for(80, 200);
    let third = cluster.find_leader().unwrap();
    assert_ne!(third, new);
    cluster.propose_to(third, encode_put(b"k", b"v")).unwrap();
    cluster.run_for(10, 200);
    cluster.heal();
    cluster.run_for(50, 200);
    for id in cluster.ids() {
        assert!(cluster.engine_get(id, b"alone").is_none());
        assert_eq!(cluster.engine_get(id, b"k").as_deref(), Some(&b"v"[..]));
        assert_eq!(cluster.applied_index(id), cluster.applied_index(1));
    }
}

#[test]
fn a_burst_of_proposals_to_a_member_that_lags_is_not_lost() {
    let mut cluster = Cluster::new(vec![1, 2, 3]);
    let leader = run_until_leader(&mut cluster, 30);
    cluster.kill(3);
    cluster.isolate(2);
    // the leader takes on an entry that nobody else has, and more than one message holds
    for n in 0..100u32 {
        cluster.propose_to(leader, encode_put(&n.to_be_bytes(), b"v")).unwrap();
    }
    cluster.heal();
    for _ in 0..30 {
        cluster.tick_all();
        cluster.step(200);
    }
    assert_eq!(cluster.applied_index(leader), Some(100));
    assert_eq!(cluster.applied_index(2), Some(100));
    // what was committed outlives the leader
    cluster.kill(leader);
    cluster.revive(3);
    cluster.run_for(100, 200);
    let next = cluster.find_leader().unwrap();
    cluster.propose_to(next, encode_put(b"more", b"v")).unwrap();
    cluster.run_for(20, 200);
    for id in [2, 3] {
        for n in 0..100u32 {
            assert_eq!(cluster.engine_get(id, &n.to_be_bytes()).as_deref(), Some(&b"v"[..]));
        }
        assert_eq!(cluster.engine_get(id, b"more").as_deref(), Some(&b"v"[..]));
    }
}

#[test]
fn stores_that_have_come_equally_far_are_the_same_whatever_goes_wrong() {
    let ids: Vec<NodeId> = vec![1, 2, 3, 4, 5];
    let keys: Vec<[u8; 1]> = (0..4u8).map(|k| [k]).collect();
    for seed in 1..6u64 {
        let mut cluster = Cluster::new(ids.clone());
        let mut x: u64 = seed;
        // what each place of the log made of the store, as first seen
        let mut seen: Vec<Option<Vec<Option<Bytes>>>> = vec![None; 2000];
        for step in 0..400u32 {
            x = x.wrapping_mul(6364136223846793005).wrapping_add(1442695040888963407);
            let r = (x >> 33) as u32;
            let id = ids[(r % 5) as usize];
            match r % 11 {
                0 => cluster.isolate(id),
                1 => cluster.heal(),
                2 => cluster.kill(id),
                3 | 4 => cluster.revive(id),
                _ => {
                    if cluster.alive_ids().contains(&id)
                        && cluster.role(id) == Some(Role::Leader)
                    {
                        let key = keys[(r % 4) as usize];
                        cluster.propose_to(id, encode_put(&key, &step.to_be_bytes())).unwrap();
                    }
                }
            }
            cluster.tick_all();
            cluster.step((r % 4) as usize);
            for &id in &ids {
                let at = cluster.applied_index(id).unwrap() as usize;
                let now: Vec<Option<Bytes>> =
                    keys.iter().map(|k| cluster.engine_get(id, k)).collect();
                match &seen[at] {
                    Some(then) => assert_eq!(then, &now),
                    None => seen[at] = Some(now),
                }
            }
        }
        assert!(seen.iter().filter(|s| s.is_some()).count() > 1);
    }
}

#[test]
fn commands_reach_the_living_members() {
    let mut cluster = Cluster::new(vec![1, 2, 3, 4, 5]);
    run_until_leader(&mut cluster, 30);
    cluster.run_for(3, 200);
    cluster.kill(3);
    cluster.kill(5);
    for n in 0..3u8 {
        cluster.put_at_leader(&[n], b"v").unwrap();
        cluster.run_for(5, 1);
    }
    for id in [1, 2, 4] {
        assert_eq!(cluster.applied_index(id), Some(3));
        for n in 0..3u8 {
            assert_eq!(cluster.engine_get(id, &[n]).as_deref(), Some(&b"v"[..]));
        }
    }
    for id in [3, 5] {
        assert_eq!(cluster.applied_index(id), Some(0));
    }
}

#[test]
fn the_lowest_id_leads_from_the_tenth_tick_once_the_votes_are_in() {
    for (ticks, rounds) in [(10, 3), (11, 2), (12, 1)] {
        let mut cluster = Cluster::new(vec![9, 4, 6]);
        cluster.run_for(ticks, rounds);
        assert_eq!(cluster.find_leader(), Some(4));
    }
    let mut cluster = Cluster::new(vec![9, 4, 6]);
    cluster.run_for(10, 2);
    assert_eq!(cluster.find_leader(), None);
}

#[test]
fn rounds_without_work_change_nothing() {
    let mut cluster = Cluster::new(vec![1, 2, 3]);
    run_until_leader(&mut cluster, 30);
    cluster.put_at_leader(b"k", b"v").unwrap();
    cluster.run_for(5, 200);
    let seen = |c: &Cluster| {
        c.ids()
            .into_iter()
            .map(|id| (c.role(id), c.term(id), c.applied_index(id), c.engine_get(id, b"k")))
            .collect::<Vec<_>>()
    };
    let before = seen(&cluster);
    cluster.step(50);
    assert_eq!(seen(&cluster), before);
}
