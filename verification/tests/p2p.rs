use fish::p2p::{
    begin_download, download_chunk, finish_download, rarest_chunks_first, rarest_first_order, ChunkOutcome,
    DownloadStats, LocalChunkStore, PeerId, TorrentManifest, unchoke_order,
};

#[test]
fn test_torrent_manifest() {
    let data = vec![0u8; 100];
    let manifest = TorrentManifest::from_artifact("artifact-hash", &data, 30);
    assert_eq!(manifest.chunk_count(), 4);
    assert_eq!(manifest.total_size, 100);
    assert_eq!(manifest.chunk_size, 30);
}

#[test]
fn chunks_cover_the_artifact_with_their_digests() {
    let data: Vec<u8> = (0u8..53).collect();
    let manifest = TorrentManifest::from_artifact("h", &data, 10);
    assert_eq!(manifest.chunk_count(), 6);
    let sizes: Vec<u64> = manifest.chunks.iter().map(|c| c.size_bytes).collect();
    assert_eq!(sizes, vec![10, 10, 10, 10, 10, 3]);
    assert_eq!(manifest.chunks[5].hash, chunk_digest(&data[50..53]));
    assert_eq!(manifest.chunks[2].index, 2);
    assert!(manifest.chunks.iter().all(|c| c.total_chunks == 6));
    assert_eq!(manifest.artifact_hash, "h");
}

#[test]
fn empty_artifact_has_no_chunks() {
    let manifest = TorrentManifest::from_artifact("h", &[], 8);
    assert_eq!(manifest.chunk_count(), 0);
}

#[test]
fn rarest_chunks_come_first_ties_in_order() {
    assert_eq!(rarest_first_order(&[3, 1, 2, 1, 0]), vec![4, 1, 3, 2, 0]);
    let manifest = TorrentManifest::from_artifact("h", &[1, 2, 3, 4], 2);
    let ordered = rarest_chunks_first(&manifest.chunks, &[5, 1]);
    assert_eq!(ordered[0].index, 1);
    assert_eq!(ordered[1].index, 0);
}

#[test]
fn download_assembles_local_chunks() {
    let data: Vec<u8> = (10u8..35).collect();
    let manifest = TorrentManifest::from_artifact("h", &data, 10);
    let mut store = LocalChunkStore::new();
    store.store_artifact_chunks(&manifest, &data);
    assert_eq!(store.len(), 3);
    let mut stats = DownloadStats::default();
    let mut state = begin_download(manifest.total_size);
    for (k, c) in manifest.chunks.iter().enumerate() {
        let outcome = download_chunk(&mut state, manifest.chunk_size, c, k % 2 == 0, &store, &mut stats);
        if k % 2 == 0 {
            assert!(matches!(outcome, ChunkOutcome::RewardBestPeer));
        } else {
            assert!(matches!(outcome, ChunkOutcome::Continue));
        }
    }
    assert_eq!(stats.chunks_downloaded, 2);
    assert_eq!(stats.total_bytes_downloaded, 15);
    assert_eq!(finish_download(state, manifest.chunk_count()).unwrap(), data);
}

#[test]
fn missing_chunk_without_peers_fails() {
    let data = vec![7u8; 12];
    let manifest = TorrentManifest::from_artifact("h", &data, 5);
    let store = LocalChunkStore::new();
    let mut stats = DownloadStats::default();
    let mut state = begin_download(manifest.total_size);
    match download_chunk(&mut state, 5, &manifest.chunks[0], false, &store, &mut stats) {
        ChunkOutcome::Failed(m) => assert_eq!(m, format!("no peers have chunk {}", manifest.chunks[0].hash)),
        other => panic!("unexpected {:?}", other),
    }
    assert_eq!(stats.failed_downloads, 1);
    let err = finish_download(state, manifest.chunk_count()).unwrap_err();
    assert_eq!(err, "incomplete download: 0/3 chunks");
}

#[test]
fn chunk_held_only_by_peers_is_zero_filled() {
    let data = vec![9u8; 12];
    let manifest = TorrentManifest::from_artifact("h", &data, 5);
    let store = LocalChunkStore::new();
    let mut stats = DownloadStats::default();
    let mut state = begin_download(manifest.total_size);
    for c in &manifest.chunks {
        assert!(matches!(download_chunk(&mut state, 5, c, true, &store, &mut stats), ChunkOutcome::Continue));
    }
    assert_eq!(finish_download(state, 3).unwrap(), vec![0u8; 12]);
    assert_eq!(PeerId::new("peer-1").to_text(), "peer-1");
}

#[test]
fn chunk_digests_are_blake3() {
    let manifest = TorrentManifest::from_artifact("h", b"abc", 16);
    assert_eq!(manifest.chunks[0].hash, "6437b3ac38465133ffb63b75273a8db548c558465d79db03fd359c6cd5bd9d85");
}

#[test]
fn download_in_rarest_order_reassembles_the_artifact() {
    let data: Vec<u8> = (0u8..47).map(|b| b.wrapping_mul(7)).collect();
    let manifest = TorrentManifest::from_artifact("h", &data, 8);
    let mut store = LocalChunkStore::new();
    store.store_artifact_chunks(&manifest, &data);
    let order = rarest_chunks_first(&manifest.chunks, &[4, 0, 2, 9, 1, 3]);
    let indices: Vec<usize> = order.iter().map(|c| c.index).collect();
    assert_eq!(indices, vec![1, 4, 2, 5, 0, 3]);
    let mut stats = DownloadStats::default();
    let mut state = begin_download(manifest.total_size);
    for c in &order {
        assert!(matches!(download_chunk(&mut state, 8, c, false, &store, &mut stats), ChunkOutcome::Continue));
    }
    assert_eq!(finish_download(state, manifest.chunk_count()).unwrap(), data);
}

fn chunk_digest(data: &[u8]) -> String {
    blake3::hash(data).to_hex().to_string()
}

#[test]
fn unchoking_prefers_speed_then_standing() {
    let speed = [1024 * 1024, 10 * 1024 * 1024, 5 * 1024 * 1024, 5 * 1024 * 1024];
    let rank = [0, 1, 1, 0];
    assert_eq!(unchoke_order(&speed, &rank, 2), vec![1, 3]);
    assert_eq!(unchoke_order(&speed, &rank, 10), vec![1, 3, 2, 0]);
    assert_eq!(unchoke_order(&[7, 7], &[0, 0], 2), vec![0, 1]);
    assert!(unchoke_order(&[], &[], 3).is_empty());
}
