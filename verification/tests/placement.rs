use spacegame::director::{best_host, nearest_host, shard_owner, Edge, HostCandidate, MIN_CORES, MIN_MEM_MB};
use spacegame::shard::{shard_for, SectorId};

fn host(id: &str, rtt_ms: Option<u32>, cpu_cores: u32, can_host: bool) -> HostCandidate {
    HostCandidate { node_id: id.to_string(), cpu_cores, mem_mb: 8192, running_jobs: 0, rtt_ms, can_host }
}

fn names(ids: &[&str]) -> Vec<String> {
    ids.iter().map(|s| s.to_string()).collect()
}

#[test]
fn a_neighbourhood_has_nine_sectors() {
    let n = SectorId::new(4, -2).neighbors();
    assert_eq!(n.len(), 9);
    for sx in 3..=5 {
        for sy in -3..=-1 {
            assert!(n.contains(&SectorId::new(sx, sy)));
        }
    }
}

#[test]
fn a_neighbourhood_ends_where_the_plane_ends() {
    let n = SectorId::new(i32::MAX, i32::MIN).neighbors();
    assert_eq!(n.len(), 4);
    assert!(n.contains(&SectorId::new(i32::MAX - 1, i32::MIN + 1)));
}

#[test]
fn a_sector_falls_to_the_host_of_the_largest_weight() {
    let hosts = names(&["alpha", "beta", "gamma"]);
    assert_eq!(shard_for("0_0", &hosts).map(|s| s.as_str()), Some("gamma"));
    assert_eq!(shard_for("1_0", &hosts).map(|s| s.as_str()), Some("beta"));
    assert_eq!(shard_for("5_-3", &hosts).map(|s| s.as_str()), Some("alpha"));
    assert_eq!(shard_for("0_0", &Vec::new()), None);
}

#[test]
fn a_sector_stays_when_another_host_goes() {
    let all = names(&["alpha", "beta", "gamma", "delta"]);
    for sector in ["0_0", "1_0", "0_1", "-7_12", "5_-3"] {
        let owner = shard_for(sector, &all).unwrap().clone();
        for gone in all.iter().filter(|h| **h != owner) {
            let left: Vec<String> = all.iter().filter(|h| *h != gone).cloned().collect();
            assert_eq!(shard_for(sector, &left), Some(&owner));
        }
    }
}

#[test]
fn the_nearest_capable_host_is_chosen() {
    let cands = vec![
        host("far", Some(80), 4, true),
        host("near-but-small", Some(2), 0, true),
        host("near-but-closed", Some(1), 8, false),
        host("near", Some(12), 4, true),
        host("unmeasured", None, 64, true),
        host("near-too", Some(12), 4, true),
    ];
    assert_eq!(best_host(&cands, MIN_CORES, MIN_MEM_MB).unwrap().node_id, "near");
    assert!(!cands[1].is_capable(MIN_CORES, MIN_MEM_MB));
    assert!(!cands[2].is_capable(MIN_CORES, MIN_MEM_MB));
    assert!(cands[4].is_capable(MIN_CORES, MIN_MEM_MB));
    assert!(best_host(&cands, 128, MIN_MEM_MB).is_none());
    assert_eq!(best_host(&cands, 32, MIN_MEM_MB).unwrap().node_id, "unmeasured");
}

#[test]
fn a_client_goes_to_the_nearest_host() {
    let edges = vec![
        Edge { peer: "a".to_string(), rtt_ms: 30 },
        Edge { peer: "b".to_string(), rtt_ms: 9 },
    ];
    let hosts = names(&["c", "a", "b"]);
    assert_eq!(nearest_host(&hosts, &edges), Some(&"b".to_string()));
    assert_eq!(nearest_host(&names(&["d", "c"]), &edges), Some(&"d".to_string()));
    assert_eq!(nearest_host(&Vec::new(), &edges), None);
}

#[test]
fn a_sector_falls_only_to_a_host_that_can_take_it() {
    let with_gamma = |cores: u32, open: bool| {
        vec![host("alpha", None, 2, true), host("beta", None, 2, true), host("gamma", None, cores, open)]
    };
    assert_eq!(shard_owner("0_0", &with_gamma(2, true)).as_deref(), Some("gamma"));
    let left = shard_for("0_0", &names(&["alpha", "beta"])).cloned();
    assert_eq!(shard_owner("0_0", &with_gamma(0, true)), left);
    assert_eq!(shard_owner("0_0", &with_gamma(2, false)), left);
    assert_eq!(shard_owner("0_0", &vec![host("alpha", None, 2, false)]), None);
}
