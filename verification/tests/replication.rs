use fish::replication::{ArtifactHash, CrossRegionReplicator, RegionId, ReplicationPeer};

#[test]
fn test_cross_region_replication() {
    let mut replicator = CrossRegionReplicator::new(RegionId::new("us-east-1"), 2);

    replicator.add_peer(ReplicationPeer::new(
        RegionId::new("us-west-2"),
        "https://cas-us-west-2.fish.build",
    ));
    replicator.add_peer(ReplicationPeer::new(
        RegionId::new("eu-west-1"),
        "https://cas-eu-west-1.fish.build",
    ));

    assert_eq!(replicator.list_peers().len(), 2);
    assert_eq!(replicator.healthy_peers().len(), 2);

    let hash = ArtifactHash::new("a".repeat(64));

    replicator.queue_for_replication(hash.clone());
    assert_eq!(replicator.pending_count(), 1);

    let report = replicator.replicate_pending();
    assert!(report.successful_replications >= 2);
    let total = report.successful_replications + report.failed_replications;
    assert!(report.successful_replications as f64 / total as f64 > 0.9);

    let status = replicator.get_replication_status(&hash).unwrap();
    assert_eq!(status.replication_factor, 2);
    assert!(status.regions.len() >= 2);

    let locations = replicator.locate_artifact(&hash);
    assert!(!locations.is_empty());
}

#[test]
fn test_optimal_peer_selection() {
    let mut replicator = CrossRegionReplicator::new(RegionId::new("us-east-1"), 1);

    let mut peer1 = ReplicationPeer::new(RegionId::new("us-west-2"), "https://west.fish.build");
    peer1.priority = 10;
    peer1.latency_ms = Some(50);

    let mut peer2 = ReplicationPeer::new(RegionId::new("eu-west-1"), "https://eu.fish.build");
    peer2.priority = 5;
    peer2.latency_ms = Some(100);

    replicator.add_peer(peer1);
    replicator.add_peer(peer2);

    let optimal = replicator.select_optimal_peer(&[]).unwrap();
    assert_eq!(optimal.region.0, "eu-west-1");

    let excluded = vec![RegionId::new("eu-west-1")];
    let second = replicator.select_optimal_peer(&excluded).unwrap();
    assert_eq!(second.region.0, "us-west-2");
}

#[test]
fn test_peer_health_management() {
    let mut replicator = CrossRegionReplicator::new(RegionId::new("us-east-1"), 1);
    replicator.add_peer(ReplicationPeer::new(
        RegionId::new("us-west-2"),
        "https://west.fish.build",
    ));

    replicator.set_peer_health(&RegionId::new("us-west-2"), false);
    assert_eq!(replicator.healthy_peers().len(), 0);

    replicator.set_peer_health(&RegionId::new("us-west-2"), true);
    assert_eq!(replicator.healthy_peers().len(), 1);

    replicator.update_peer_latency(&RegionId::new("us-west-2"), 42);
    let peers = replicator.list_peers();
    assert_eq!(peers[0].latency_ms, Some(42));
}

#[test]
fn queueing_twice_keeps_one_entry() {
    let mut replicator = CrossRegionReplicator::new(RegionId::new("us-east-1"), 1);
    let hash = ArtifactHash::new("b".repeat(64));
    replicator.queue_for_replication(hash.clone());
    replicator.queue_for_replication(hash.clone());
    assert_eq!(replicator.pending_count(), 1);
}

#[test]
fn removed_peer_is_no_longer_listed() {
    let mut replicator = CrossRegionReplicator::new(RegionId::new("us-east-1"), 1);
    replicator.add_peer(ReplicationPeer::new(RegionId::new("us-west-2"), "https://west.fish.build"));
    replicator.add_peer(ReplicationPeer::new(RegionId::new("eu-west-1"), "https://eu.fish.build"));
    replicator.remove_peer(&RegionId::new("us-west-2"));
    let peers = replicator.list_peers();
    assert_eq!(peers.len(), 1);
    assert_eq!(peers[0].region.0, "eu-west-1");
}

#[test]
fn adding_a_peer_twice_replaces_it() {
    let mut replicator = CrossRegionReplicator::new(RegionId::new("us-east-1"), 1);
    replicator.add_peer(ReplicationPeer::new(RegionId::new("us-west-2"), "https://old.fish.build"));
    replicator.add_peer(ReplicationPeer::new(RegionId::new("us-west-2"), "https://new.fish.build"));
    let peers = replicator.list_peers();
    assert_eq!(peers.len(), 1);
    assert_eq!(peers[0].endpoint, "https://new.fish.build");
}

#[test]
fn unhealthy_peers_are_not_selected() {
    let mut replicator = CrossRegionReplicator::new(RegionId::new("us-east-1"), 1);
    replicator.add_peer(ReplicationPeer::new(RegionId::new("us-west-2"), "https://west.fish.build"));
    replicator.set_peer_health(&RegionId::new("us-west-2"), false);
    assert!(replicator.select_optimal_peer(&[]).is_none());
}

#[test]
fn local_region_is_reported_after_replication() {
    let mut replicator = CrossRegionReplicator::new(RegionId::new("us-east-1"), 1);
    replicator.add_peer(ReplicationPeer::new(RegionId::new("us-west-2"), "https://west.fish.build"));
    let hash = ArtifactHash::new("c".repeat(64));
    replicator.queue_for_replication(hash.clone());
    let report = replicator.replicate_pending();
    assert_eq!(report.total_artifacts, 1);
    assert_eq!(report.failed_replications, 0);
    assert_eq!(replicator.pending_count(), 0);
    assert_eq!(replicator.local_region().to_text(), "us-east-1");
}

#[test]
fn each_artifact_is_pushed_to_min_factor_healthy_regions() {
    let mut replicator = CrossRegionReplicator::new(RegionId::new("us-east-1"), 2);
    for (name, url) in [("eu-west-1", "https://eu.fish.build"), ("ap-south-1", "https://ap.fish.build"), ("us-west-2", "https://west.fish.build")] {
        replicator.add_peer(ReplicationPeer::new(RegionId::new(name), url));
    }
    replicator.queue_for_replication(ArtifactHash::new("a".repeat(64)));
    replicator.queue_for_replication(ArtifactHash::new("b".repeat(64)));
    let report = replicator.replicate_pending();
    assert_eq!(report.total_artifacts, 2);
    assert_eq!(report.successful_replications, 4);
    let mut latency = CrossRegionReplicator::new(RegionId::new("us-east-1"), 1);
    latency.add_peer(ReplicationPeer::new(RegionId::new("us-west-2"), "https://west.fish.build"));
    latency.update_peer_latency_at(&RegionId::new("us-west-2"), 42, 777);
    assert_eq!(latency.list_peers()[0].latency_ms, Some(42));
    assert_eq!(latency.list_peers()[0].last_sync, Some(777));
    latency.update_peer_latency_at(&RegionId::new("nowhere"), 1, 1);
    assert_eq!(latency.list_peers().len(), 1);
}
