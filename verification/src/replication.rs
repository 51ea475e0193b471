use vstd::prelude::*;
use crate::clock::unix_now_secs;

verus! {

/// Region identifier.
pub struct RegionId(pub String);

impl Clone for RegionId {
    fn clone(&self) -> (r: Self)
        ensures
            r == *self,
    {
        RegionId(self.0.clone())
    }
}

impl RegionId {
    pub fn new(id: &str) -> (r: Self)
        ensures
            r.0@ == id@,
    {
        RegionId(id.to_string())
    }

    /// The region's name, as it is displayed.
    pub fn to_text(&self) -> (r: String)
        ensures
            r@ == self.0@,
    {
        self.0.clone()
    }
}

/// Content hash of an artifact, kept as its textual (hex) form.
pub struct ArtifactHash(pub String);

impl Clone for ArtifactHash {
    fn clone(&self) -> (r: Self)
        ensures
            r == *self,
    {
        ArtifactHash(self.0.clone())
    }
}

impl ArtifactHash {
    pub fn new(hash: String) -> (r: Self)
        ensures
            r.0 == hash,
    {
        ArtifactHash(hash)
    }

    pub fn as_str(&self) -> (r: &str)
        ensures
            r@ == self.0@,
    {
        self.0.as_str()
    }
}

/// Replication peer representing a remote CAS region.
pub struct ReplicationPeer {
    pub region: RegionId,
    pub endpoint: String,
    pub priority: u32,
    pub last_sync: Option<u64>,
    pub latency_ms: Option<u64>,
    pub healthy: bool,
}

impl Clone for ReplicationPeer {
    fn clone(&self) -> (r: Self)
        ensures
            r == *self,
    {
        ReplicationPeer {
            region: self.region.clone(),
            endpoint: self.endpoint.clone(),
            priority: self.priority,
            last_sync: self.last_sync,
            latency_ms: self.latency_ms,
            healthy: self.healthy,
        }
    }
}

impl ReplicationPeer {
    /// A new peer: priority 100, never synced, latency unknown, healthy.
    pub fn new(region: RegionId, endpoint: &str) -> (r: Self)
        ensures
            r.region == region,
            r.endpoint@ == endpoint@,
            r.priority == 100,
            r.last_sync is None,
            r.latency_ms is None,
            r.healthy,
    {
        ReplicationPeer {
            region,
            endpoint: endpoint.to_string(),
            priority: 100,
            last_sync: None,
            latency_ms: None,
            healthy: true,
        }
    }

    pub fn with_priority(self, priority: u32) -> (r: Self)
        ensures
            r == (ReplicationPeer { priority, ..self }),
    {
        let mut s = self;
        s.priority = priority;
        s
    }
}

/// Per-region synchronisation state of one artifact.
pub struct RegionSyncStatus {
    pub synced: bool,
    pub synced_at: Option<u64>,
    pub attempts: u32,
    pub last_error: Option<String>,
}

impl Clone for RegionSyncStatus {
    fn clone(&self) -> (r: Self)
        ensures
            r == *self,
    {
        RegionSyncStatus {
            synced: self.synced,
            synced_at: self.synced_at,
            attempts: self.attempts,
            last_error: self.last_error.clone(),
        }
    }
}

/// The synchronisation state of one artifact in one region.
pub struct RegionSyncEntry {
    pub region: String,
    pub status: RegionSyncStatus,
}

impl Clone for RegionSyncEntry {
    fn clone(&self) -> (r: Self)
        ensures
            r == *self,
    {
        RegionSyncEntry { region: self.region.clone(), status: self.status.clone() }
    }
}

/// Replication status for an artifact; `regions` maps a region name to its state
/// (each name occurs at most once).
pub struct ReplicationStatus {
    pub hash: String,
    pub regions: Vec<RegionSyncEntry>,
    pub replication_factor: usize,
    pub created_at: u64,
}

impl ReplicationStatus {
    /// Two statuses hold the same values (the region list compared by its elements).
    pub open spec fn same_as(self, other: ReplicationStatus) -> bool {
        &&& self.hash == other.hash
        &&& self.regions@ == other.regions@
        &&& self.replication_factor == other.replication_factor
        &&& self.created_at == other.created_at
    }
}

impl Clone for ReplicationStatus {
    fn clone(&self) -> (r: Self)
        ensures
            r.same_as(*self),
    {
        let regions = self.regions.clone();
        proof {
            assert(regions@ =~= self.regions@);
        }
        ReplicationStatus {
            hash: self.hash.clone(),
            regions,
            replication_factor: self.replication_factor,
            created_at: self.created_at,
        }
    }
}

} // verus!

verus! {

/// Name under which a peer is keyed.
pub open spec fn peer_key(p: ReplicationPeer) -> Seq<char> {
    p.region.0@
}

/// No two peers share a region name.
pub open spec fn peer_keys_unique(s: Seq<ReplicationPeer>) -> bool {
    forall|i: int, j: int|
        0 <= i < s.len() && 0 <= j < s.len() && i != j ==> #[trigger] peer_key(s[i]) != #[trigger] peer_key(
            s[j],
        )
}

/// Some peer is keyed by `k`.
pub open spec fn has_peer(s: Seq<ReplicationPeer>, k: Seq<char>) -> bool {
    exists|i: int| 0 <= i < s.len() && #[trigger] peer_key(s[i]) == k
}

/// The position of the peer keyed by `k` (meaningful when `has_peer(s, k)`).
pub open spec fn peer_position(s: Seq<ReplicationPeer>, k: Seq<char>) -> int {
    choose|i: int| 0 <= i < s.len() && #[trigger] peer_key(s[i]) == k
}

/// No two entries share a region name.
pub open spec fn entry_keys_unique(s: Seq<RegionSyncEntry>) -> bool {
    forall|i: int, j: int|
        0 <= i < s.len() && 0 <= j < s.len() && i != j ==> (#[trigger] s[i]).region@ != (
        #[trigger] s[j]).region@
}

/// Some entry is keyed by `k`.
pub open spec fn has_entry(s: Seq<RegionSyncEntry>, k: Seq<char>) -> bool {
    exists|i: int| 0 <= i < s.len() && (#[trigger] s[i]).region@ == k
}

/// No hash is queued twice.
pub open spec fn hashes_unique(s: Seq<ArtifactHash>) -> bool {
    forall|i: int, j: int|
        0 <= i < s.len() && 0 <= j < s.len() && i != j ==> (#[trigger] s[i]).0@ != (#[trigger] s[j]).0@
}

/// No two statuses describe the same hash, and each status keys its regions uniquely.
pub open spec fn statuses_wf(s: Seq<ReplicationStatus>) -> bool {
    &&& forall|i: int, j: int|
        0 <= i < s.len() && 0 <= j < s.len() && i != j ==> (#[trigger] s[i]).hash@ != (
        #[trigger] s[j]).hash@
    &&& forall|i: int| 0 <= i < s.len() ==> entry_keys_unique((#[trigger] s[i]).regions@)
}

/// Some status describes hash `h`.
pub open spec fn has_status(s: Seq<ReplicationStatus>, h: Seq<char>) -> bool {
    exists|i: int| 0 <= i < s.len() && (#[trigger] s[i]).hash@ == h
}

/// The position of the status of hash `h` (meaningful when `has_status(s, h)`).
pub open spec fn status_position(s: Seq<ReplicationStatus>, h: Seq<char>) -> int {
    choose|i: int| 0 <= i < s.len() && (#[trigger] s[i]).hash@ == h
}

/// Better-or-equal in the order used to pick a peer: lower priority first, then a known
/// lower latency, a known latency before an unknown one.
pub open spec fn peer_not_worse(a: ReplicationPeer, b: ReplicationPeer) -> bool {
    a.priority < b.priority || (a.priority == b.priority && match (a.latency_ms, b.latency_ms) {
        (Some(x), Some(y)) => x <= y,
        (Some(_), None) => true,
        (None, Some(_)) => false,
        (None, None) => true,
    })
}

/// A peer that may be picked: healthy and not in the excluded regions.
pub open spec fn is_candidate(p: ReplicationPeer, exclude: Seq<RegionId>) -> bool {
    p.healthy && !(exists|i: int| 0 <= i < exclude.len() && (#[trigger] exclude[i]).0@ == p.region.0@)
}

/// The synced regions of entries with distinct regions are distinct, and each is the
/// region of some entry.
pub proof fn lemma_synced_regions_distinct(e: Seq<RegionSyncEntry>)
    requires
        entry_keys_unique(e),
    ensures
        synced_regions(e).no_duplicates(),
        forall|k: Seq<char>| #[trigger] synced_regions(e).contains(k) ==> has_entry(e, k),
    decreases e.len(),
{
    if e.len() > 0 {
        let t = e.drop_last();
        assert forall|a: int, b: int| 0 <= a < t.len() && 0 <= b < t.len() && a != b implies (#[trigger] t[a]).region@
            != (#[trigger] t[b]).region@ by {
            assert(e[a].region@ != e[b].region@);
        }
        lemma_synced_regions_distinct(t);
        assert forall|k: Seq<char>| #[trigger] synced_regions(t).contains(k) implies has_entry(e, k) by {
            let i = choose|i: int| 0 <= i < t.len() && (#[trigger] t[i]).region@ == k;
            assert(e[i].region@ == k);
        }
        if e.last().status.synced {
            let s = synced_regions(t);
            let k = e.last().region@;
            if s.contains(k) {
                let i = choose|i: int| 0 <= i < t.len() && (#[trigger] t[i]).region@ == k;
                assert(e[i].region@ == e[e.len() - 1].region@);
            }
            assert forall|k2: Seq<char>| #[trigger] s.push(k).contains(k2) implies has_entry(e, k2) by {
                let j = choose|j: int| 0 <= j < s.push(k).len() && s.push(k)[j] == k2;
                if j < s.len() {
                    assert(s.contains(k2));
                } else {
                    assert(e[e.len() - 1].region@ == k2);
                }
            }
            assert forall|a: int, b: int| 0 <= a < s.push(k).len() && 0 <= b < s.push(k).len() && a != b implies s.push(
                k,
            )[a] != s.push(k)[b] by {
                if a < s.len() && b < s.len() {
                } else if a < s.len() {
                    assert(s.contains(s[a]));
                } else {
                    assert(s.contains(s[b]));
                }
            }
        }
    }
}

/// Names of the regions holding a synced copy, in entry order.
pub open spec fn synced_regions(e: Seq<RegionSyncEntry>) -> Seq<Seq<char>>
    decreases e.len(),
{
    if e.len() == 0 {
        Seq::empty()
    } else if e.last().status.synced {
        synced_regions(e.drop_last()).push(e.last().region@)
    } else {
        synced_regions(e.drop_last())
    }
}

/// An entry as created when an artifact is queued: not synced, never attempted.
pub open spec fn is_fresh_entry(e: RegionSyncEntry, k: Seq<char>) -> bool {
    &&& e.region@ == k
    &&& !e.status.synced
    &&& e.status.synced_at is None
    &&& e.status.attempts == 0
    &&& e.status.last_error is None
}

/// The peers whose region has no entry in `r`, in peer order.
pub open spec fn peers_missing(p: Seq<ReplicationPeer>, r: Seq<RegionSyncEntry>) -> Seq<
    ReplicationPeer,
> {
    p.filter(|x: ReplicationPeer| !has_entry(r, peer_key(x)))
}

/// `new` is `old` followed by one fresh entry for each peer of `p` that `old` lacks.
pub open spec fn entries_extended(
    old: Seq<RegionSyncEntry>,
    new: Seq<RegionSyncEntry>,
    p: Seq<ReplicationPeer>,
) -> bool {
    let q = peers_missing(p, old);
    &&& new.len() == old.len() + q.len()
    &&& new.take(old.len() as int) == old
    &&& forall|j: int| 0 <= j < q.len() ==> is_fresh_entry(#[trigger] new[old.len() + j], peer_key(q[j]))
}

/// `h` waits in the queue.
pub open spec fn is_pending(q: Seq<ArtifactHash>, h: Seq<char>) -> bool {
    exists|i: int| 0 <= i < q.len() && (#[trigger] q[i]).0@ == h
}

/// The queue after `h` is queued: unchanged when `h` waits already, else `h` appended.
pub open spec fn queued(q: Seq<ArtifactHash>, h: ArtifactHash) -> Seq<ArtifactHash> {
    if is_pending(q, h.0@) {
        q
    } else {
        q.push(h)
    }
}

/// The peers after `p` is added: it replaces the peer of its region, or is appended.
pub open spec fn with_peer(s: Seq<ReplicationPeer>, p: ReplicationPeer) -> Seq<ReplicationPeer> {
    if has_peer(s, peer_key(p)) {
        s.update(peer_position(s, peer_key(p)), p)
    } else {
        s.push(p)
    }
}

/// The peers after the peer of region `k` (if any) is removed.
pub open spec fn without_peer(s: Seq<ReplicationPeer>, k: Seq<char>) -> Seq<ReplicationPeer> {
    if has_peer(s, k) {
        s.remove(peer_position(s, k))
    } else {
        s
    }
}

/// The position of the entry of region `key`, if any.
fn find_entry(regions: &Vec<RegionSyncEntry>, key: &String) -> (r: Option<usize>)
    ensures
        match r {
            Some(i) => i < regions@.len() && regions@[i as int].region@ == key@,
            None => !has_entry(regions@, key@),
        },
{
    let mut i: usize = 0;
    while i < regions.len()
        invariant
            i <= regions@.len(),
            forall|j: int| 0 <= j < i ==> (#[trigger] regions@[j]).region@ != key@,
        decreases regions@.len() - i,
    {
        if regions[i].region == *key {
            return Some(i);
        }
        i = i + 1;
    }
    None
}

/// Appends a fresh entry for every peer whose region has none yet.
fn extend_entries(regions: &mut Vec<RegionSyncEntry>, peers: &Vec<ReplicationPeer>)
    requires
        entry_keys_unique(old(regions)@),
        peer_keys_unique(peers@),
    ensures
        entries_extended(old(regions)@, final(regions)@, peers@),
        entry_keys_unique(final(regions)@),
{
    let ghost r0 = regions@;
    let mut i: usize = 0;
    while i < peers.len()
        invariant
            i <= peers@.len(),
            peer_keys_unique(peers@),
            regions@.len() == r0.len() + peers_missing(peers@.take(i as int), r0).len(),
            regions@.take(r0.len() as int) == r0,
            forall|j: int|
                0 <= j < peers_missing(peers@.take(i as int), r0).len() ==> is_fresh_entry(
                    #[trigger] regions@[r0.len() + j],
                    peer_key(peers_missing(peers@.take(i as int), r0)[j]),
                ),
            forall|m: int|
                r0.len() <= m < regions@.len() ==> exists|j: int|
                    0 <= j < i && (#[trigger] regions@[m]).region@ == #[trigger] peer_key(peers@[j]),
            entry_keys_unique(regions@),
        decreases peers@.len() - i,
    {
        let ghost q = peers_missing(peers@.take(i as int), r0);
        proof {
            reveal_with_fuel(Seq::filter, 1);
            assert(peers@.take(i + 1).drop_last() =~= peers@.take(i as int));
        }
        let key = &peers[i].region.0;
        let found = find_entry(regions, key);
        proof {
            assert forall|m: int| r0.len() <= m < regions@.len() implies regions@[m].region@ != key@ by {
                let j = choose|j: int| 0 <= j < i && regions@[m].region@ == peer_key(peers@[j]);
                assert(peer_key(peers@[j]) != peer_key(peers@[i as int]));
            }
            assert(has_entry(regions@, key@) <==> has_entry(r0, key@)) by {
                if has_entry(regions@, key@) {
                    let m = choose|m: int| 0 <= m < regions@.len() && (#[trigger] regions@[m]).region@ == key@;
                    assert(m < r0.len());
                    assert(regions@.take(r0.len() as int)[m] == regions@[m]);
                }
                if has_entry(r0, key@) {
                    let m = choose|m: int| 0 <= m < r0.len() && (#[trigger] r0[m]).region@ == key@;
                    assert(regions@.take(r0.len() as int)[m] == regions@[m]);
                }
            }
        }
        if found.is_none() {
            let e = RegionSyncEntry {
                region: key.clone(),
                status: RegionSyncStatus {
                    synced: false,
                    synced_at: None,
                    attempts: 0,
                    last_error: None,
                },
            };
            regions.push(e);
            proof {
                let q2 = peers_missing(peers@.take(i + 1), r0);
                assert(q2 =~= q.push(peers@[i as int]));
                assert(regions@.take(r0.len() as int) =~= r0);
                assert forall|m: int|
                    r0.len() <= m < regions@.len() implies exists|j: int|
                        0 <= j < i + 1 && (#[trigger] regions@[m]).region@ == #[trigger] peer_key(
                            peers@[j],
                        ) by {
                    if m == regions@.len() - 1 {
                        assert(regions@[m].region@ == peer_key(peers@[i as int]));
                    } else {
                        let j = choose|j: int| 0 <= j < i && regions@[m].region@ == peer_key(peers@[j]);
                        assert(regions@[m].region@ == peer_key(peers@[j]));
                    }
                }
            }
        } else {
            proof {
                let q2 = peers_missing(peers@.take(i + 1), r0);
                assert(q2 =~= q);
            }
        }
        i = i + 1;
    }
    proof {
        assert(peers@.take(i as int) =~= peers@);
    }
}

/// The regions an artifact is pushed to in one replication pass: in peer order, the
/// first `budget` of the given peers whose region has an entry in `e`.
pub open spec fn chosen_regions(e: Seq<RegionSyncEntry>, peers: Seq<ReplicationPeer>, budget: nat) -> Seq<
    Seq<char>,
>
    decreases peers.len(),
{
    if peers.len() == 0 || budget == 0 {
        Seq::empty()
    } else if has_entry(e, peer_key(peers[0])) {
        seq![peer_key(peers[0])] + chosen_regions(e, peers.drop_first(), (budget - 1) as nat)
    } else {
        chosen_regions(e, peers.drop_first(), budget)
    }
}

/// `n` is `o` after one successful push to each region of `chosen`.
pub open spec fn entry_replicated(o: RegionSyncEntry, n: RegionSyncEntry, chosen: Seq<Seq<char>>) -> bool {
    &&& n.region == o.region
    &&& if chosen.contains(o.region@) {
        &&& n.status.synced
        &&& n.status.synced_at is Some
        &&& n.status.attempts == o.status.attempts + 1
        &&& n.status.last_error is None
    } else {
        n == o
    }
}

/// Entry-wise `entry_replicated`.
pub open spec fn entries_replicated(
    o: Seq<RegionSyncEntry>,
    n: Seq<RegionSyncEntry>,
    chosen: Seq<Seq<char>>,
) -> bool {
    &&& n.len() == o.len()
    &&& forall|i: int| 0 <= i < o.len() ==> entry_replicated(#[trigger] o[i], n[i], chosen)
}

/// The regions chosen for hash `h` (none when it has no status).
pub open spec fn chosen_for(
    statuses: Seq<ReplicationStatus>,
    healthy: Seq<ReplicationPeer>,
    factor: nat,
    h: Seq<char>,
) -> Seq<Seq<char>> {
    if has_status(statuses, h) {
        chosen_regions(statuses[status_position(statuses, h)].regions@, healthy, factor)
    } else {
        Seq::empty()
    }
}

/// The number of pushes made for the hashes of `pending`.
pub open spec fn total_chosen(
    statuses: Seq<ReplicationStatus>,
    healthy: Seq<ReplicationPeer>,
    factor: nat,
    pending: Seq<ArtifactHash>,
) -> nat
    decreases pending.len(),
{
    if pending.len() == 0 {
        0
    } else {
        total_chosen(statuses, healthy, factor, pending.drop_last()) + chosen_for(
            statuses,
            healthy,
            factor,
            pending.last().0@,
        ).len()
    }
}

/// The number of hashes of `pending` pushed to region `k`.
pub open spec fn region_hits(
    statuses: Seq<ReplicationStatus>,
    healthy: Seq<ReplicationPeer>,
    factor: nat,
    pending: Seq<ArtifactHash>,
    k: Seq<char>,
) -> nat
    decreases pending.len(),
{
    if pending.len() == 0 {
        0
    } else {
        region_hits(statuses, healthy, factor, pending.drop_last(), k) + if chosen_for(
            statuses,
            healthy,
            factor,
            pending.last().0@,
        ).contains(k) {
            1nat
        } else {
            0nat
        }
    }
}

/// The number of regions holding a synced copy.
pub open spec fn synced_count(e: Seq<RegionSyncEntry>) -> nat {
    e.filter(|x: RegionSyncEntry| x.status.synced).len()
}

/// A hash stays queued unless its status shows at least `factor` synced regions.
pub open spec fn keeps_pending(statuses: Seq<ReplicationStatus>, h: Seq<char>, factor: nat) -> bool {
    !has_status(statuses, h) || synced_count(statuses[status_position(statuses, h)].regions@)
        < factor
}

/// Number of pushes made to one region in a replication pass.
pub struct RegionCount {
    pub region: String,
    pub count: usize,
}

/// Outcome of a replication pass.
pub struct ReplicationReport {
    pub total_artifacts: usize,
    pub successful_replications: usize,
    pub failed_replications: usize,
    pub per_region: Vec<RegionCount>,
}

/// At most `budget` regions, and at most one per peer, are chosen.
proof fn lemma_chosen_len(e: Seq<RegionSyncEntry>, peers: Seq<ReplicationPeer>, budget: nat)
    ensures
        chosen_regions(e, peers, budget).len() <= peers.len(),
        chosen_regions(e, peers, budget).len() <= budget,
    decreases peers.len(),
{
    if peers.len() > 0 && budget > 0 {
        if has_entry(e, peer_key(peers[0])) {
            lemma_chosen_len(e, peers.drop_first(), (budget - 1) as nat);
        } else {
            lemma_chosen_len(e, peers.drop_first(), budget);
        }
    }
}

/// Each hash adds at most one push per healthy peer.
proof fn lemma_total_chosen_bound(
    statuses: Seq<ReplicationStatus>,
    healthy: Seq<ReplicationPeer>,
    factor: nat,
    pending: Seq<ArtifactHash>,
)
    ensures
        total_chosen(statuses, healthy, factor, pending) <= pending.len() * healthy.len(),
    decreases pending.len(),
{
    if pending.len() > 0 {
        lemma_total_chosen_bound(statuses, healthy, factor, pending.drop_last());
        let h = pending.last().0@;
        if has_status(statuses, h) {
            lemma_chosen_len(statuses[status_position(statuses, h)].regions@, healthy, factor);
        }
        assert((pending.len() - 1) * healthy.len() + healthy.len() == pending.len() * healthy.len())
            by (nonlinear_arith);
    }
}

/// A region is hit at most once per hash.
proof fn lemma_region_hits_bound(
    statuses: Seq<ReplicationStatus>,
    healthy: Seq<ReplicationPeer>,
    factor: nat,
    pending: Seq<ArtifactHash>,
    k: Seq<char>,
)
    ensures
        region_hits(statuses, healthy, factor, pending, k) <= pending.len(),
    decreases pending.len(),
{
    if pending.len() > 0 {
        lemma_region_hits_bound(statuses, healthy, factor, pending.drop_last(), k);
    }
}

/// `v` counts, once per region and only for regions hit at least once, the hits given by `hits`.
pub open spec fn counts_match(v: Seq<RegionCount>, hits: spec_fn(Seq<char>) -> nat) -> bool {
    &&& forall|a: int, b: int|
        0 <= a < v.len() && 0 <= b < v.len() && a != b ==> (#[trigger] v[a]).region@ != (
        #[trigger] v[b]).region@
    &&& forall|m: int| 0 <= m < v.len() ==> (#[trigger] v[m]).count == hits(v[m].region@) && v[m].count > 0
    &&& forall|k: Seq<char>| #[trigger] hits(k) > 0 ==> exists|m: int| 0 <= m < v.len() && (#[trigger] v[m]).region@ == k
}

/// The healthy peers of `s`, in order.
pub open spec fn healthy_of(s: Seq<ReplicationPeer>) -> Seq<ReplicationPeer> {
    s.filter(|p: ReplicationPeer| p.healthy)
}

/// Keeping the healthy peers keeps region names unique, and keeps only peers of `s`.
proof fn lemma_healthy_filter(s: Seq<ReplicationPeer>)
    requires
        peer_keys_unique(s),
    ensures
        peer_keys_unique(healthy_of(s)),
        forall|i: int|
            0 <= i < healthy_of(s).len() ==> (#[trigger] healthy_of(s)[i]).healthy && exists|j: int| 0 <= j < s.len() && s[j] == healthy_of(s)[i],
    decreases s.len(),
{
    reveal_with_fuel(Seq::filter, 1);
    if s.len() > 0 {
        let t = s.drop_last();
        assert(peer_keys_unique(t)) by {
            assert forall|i: int, j: int|
                0 <= i < t.len() && 0 <= j < t.len() && i != j implies #[trigger] peer_key(t[i])
                    != #[trigger] peer_key(t[j]) by {
                assert(t[i] == s[i] && t[j] == s[j]);
            }
        }
        lemma_healthy_filter(t);
        let ft = healthy_of(t);
        let fs = healthy_of(s);
        if s.last().healthy {
            assert(fs == ft.push(s.last()));
            assert forall|i: int, j: int|
                0 <= i < fs.len() && 0 <= j < fs.len() && i != j implies #[trigger] peer_key(fs[i])
                    != #[trigger] peer_key(fs[j]) by {
                if i == fs.len() - 1 {
                    let jj = choose|jj: int| 0 <= jj < t.len() && t[jj] == ft[j];
                    assert(s[jj] == t[jj]);
                    assert(peer_key(s[jj]) != peer_key(s[s.len() - 1]));
                } else if j == fs.len() - 1 {
                    let ii = choose|ii: int| 0 <= ii < t.len() && t[ii] == ft[i];
                    assert(s[ii] == t[ii]);
                    assert(peer_key(s[ii]) != peer_key(s[s.len() - 1]));
                } else {
                    assert(fs[i] == ft[i] && fs[j] == ft[j]);
                }
            }
            assert forall|i: int| 0 <= i < fs.len() implies (#[trigger] fs[i]).healthy && exists|j: int|
                0 <= j < s.len() && s[j] == fs[i] by {
                if i == fs.len() - 1 {
                    assert(s[s.len() - 1] == fs[i]);
                } else {
                    assert(fs[i] == ft[i]);
                    let jj = choose|jj: int| 0 <= jj < t.len() && t[jj] == ft[i];
                    assert(s[jj] == t[jj]);
                }
            }
        } else {
            assert(fs == ft);
            assert forall|i: int| 0 <= i < fs.len() implies (#[trigger] fs[i]).healthy && exists|j: int|
                0 <= j < s.len() && s[j] == fs[i] by {
                let jj = choose|jj: int| 0 <= jj < t.len() && t[jj] == ft[i];
                assert(s[jj] == t[jj]);
            }
        }
    }
}

/// Whether a push to `peer` succeeds: it does exactly when the peer is healthy.
fn simulate_replication(peer: &ReplicationPeer) -> (r: bool)
    ensures
        r == peer.healthy,
{
    peer.healthy
}

/// Cross-region replication manager.
pub struct CrossRegionReplicator {
    local_region: RegionId,
    peers: Vec<ReplicationPeer>,
    replication_factor: usize,
    pending_queue: Vec<ArtifactHash>,
    synced_artifacts: Vec<ReplicationStatus>,
}

impl CrossRegionReplicator {
    /// Internal consistency: factor at least 1, peers, queued hashes and statuses keyed uniquely.
    pub closed spec fn wf(self) -> bool {
        &&& self.replication_factor >= 1
        &&& peer_keys_unique(self.peers@)
        &&& hashes_unique(self.pending_queue@)
        &&& statuses_wf(self.synced_artifacts@)
    }

    /// The peers, in the order in which they were first added.
    pub closed spec fn peer_seq(self) -> Seq<ReplicationPeer> {
        self.peers@
    }

    /// The queue of hashes awaiting replication.
    pub closed spec fn pending_seq(self) -> Seq<ArtifactHash> {
        self.pending_queue@
    }

    /// The replication status of every artifact ever queued.
    pub closed spec fn status_seq(self) -> Seq<ReplicationStatus> {
        self.synced_artifacts@
    }

    /// A well-formed replicator holds one peer per region, one status per artifact, and in
    /// each status one entry per region.
    pub proof fn lemma_keys_distinct(self)
        requires
            self.wf(),
        ensures
            peer_keys_unique(self.peer_seq()),
            statuses_wf(self.status_seq()),
            self.factor() >= 1,
    {
    }

    /// The number of regions an artifact must reach.
    pub closed spec fn factor(self) -> usize {
        self.replication_factor
    }

    /// The local region.
    pub closed spec fn local(self) -> RegionId {
        self.local_region
    }

    pub fn new(local_region: RegionId, replication_factor: usize) -> (r: Self)
        ensures
            r.wf(),
            r.local() == local_region,
            r.factor() == if replication_factor >= 1 { replication_factor } else { 1 },
            r.peer_seq().len() == 0,
            r.pending_seq().len() == 0,
            r.status_seq().len() == 0,
    {
        CrossRegionReplicator {
            local_region,
            peers: Vec::new(),
            replication_factor: if replication_factor >= 1 { replication_factor } else { 1 },
            pending_queue: Vec::new(),
            synced_artifacts: Vec::new(),
        }
    }

    pub fn local_region(&self) -> (r: &RegionId)
        ensures
            *r == self.local(),
    {
        &self.local_region
    }

    /// The position of the peer whose region name is `key`, if any.
    fn find_peer(&self, key: &String) -> (r: Option<usize>)
        requires
            peer_keys_unique(self.peers@),
        ensures
            match r {
                Some(i) => i < self.peers@.len() && peer_key(self.peers@[i as int]) == key@
                    && i == peer_position(self.peers@, key@),
                None => !has_peer(self.peers@, key@),
            },
    {
        let mut i: usize = 0;
        while i < self.peers.len()
            invariant
                i <= self.peers@.len(),
                forall|j: int| 0 <= j < i ==> peer_key(#[trigger] self.peers@[j]) != key@,
            decreases self.peers@.len() - i,
        {
            if self.peers[i].region.0 == *key {
                proof {
                    assert(peer_key(self.peers@[i as int]) == key@);
                    assert(has_peer(self.peers@, key@));
                    let j = peer_position(self.peers@, key@);
                    assert(peer_key(self.peers@[j]) == key@);
                }
                return Some(i);
            }
            i = i + 1;
        }
        None
    }

    /// Adds a peer, replacing the one of the same region if there is one.
    pub fn add_peer(&mut self, peer: ReplicationPeer)
        requires
            old(self).wf(),
        ensures
            final(self).wf(),
            final(self).peer_seq() == with_peer(old(self).peer_seq(), peer),
            final(self).pending_seq() == old(self).pending_seq(),
            final(self).status_seq() == old(self).status_seq(),
            final(self).factor() == old(self).factor(),
            final(self).local() == old(self).local(),
    {
        let idx = self.find_peer(&peer.region.0);
        match idx {
            Some(i) => {
                self.peers.set(i, peer);
            },
            None => {
                self.peers.push(peer);
            },
        }
    }

    /// Removes the peer of the given region, if there is one.
    pub fn remove_peer(&mut self, region: &RegionId)
        requires
            old(self).wf(),
        ensures
            final(self).wf(),
            final(self).peer_seq() == without_peer(old(self).peer_seq(), region.0@),
            final(self).pending_seq() == old(self).pending_seq(),
            final(self).status_seq() == old(self).status_seq(),
            final(self).factor() == old(self).factor(),
            final(self).local() == old(self).local(),
    {
        let idx = self.find_peer(&region.0);
        if let Some(i) = idx {
            self.peers.remove(i);
        }
    }

    /// All peers.
    pub fn list_peers(&self) -> (r: Vec<ReplicationPeer>)
        ensures
            r@ == self.peer_seq(),
            self.wf() ==> peer_keys_unique(r@),
    {
        let r = self.peers.clone();
        proof {
            assert(r@ =~= self.peers@);
        }
        r
    }

    /// The healthy peers.
    pub fn healthy_peers(&self) -> (r: Vec<ReplicationPeer>)
        ensures
            r@ == healthy_of(self.peer_seq()),
    {
        let mut r: Vec<ReplicationPeer> = Vec::new();
        let mut i: usize = 0;
        while i < self.peers.len()
            invariant
                i <= self.peers@.len(),
                r@ == self.peers@.take(i as int).filter(|p: ReplicationPeer| p.healthy),
            decreases self.peers@.len() - i,
        {
            proof {
                reveal_with_fuel(Seq::filter, 1);
                assert(self.peers@.take(i + 1).drop_last() =~= self.peers@.take(i as int));
            }
            if self.peers[i].healthy {
                r.push(self.peers[i].clone());
            }
            i = i + 1;
        }
        proof {
            assert(self.peers@.take(i as int) =~= self.peers@);
        }
        r
    }

    /// The number of hashes awaiting replication.
    pub fn pending_count(&self) -> (r: usize)
        ensures
            r == self.pending_seq().len(),
    {
        self.pending_queue.len()
    }

    /// Marks the peer of `region` healthy or not; nothing happens if there is none.
    pub fn set_peer_health(&mut self, region: &RegionId, healthy: bool)
        requires
            old(self).wf(),
        ensures
            final(self).wf(),
            has_peer(old(self).peer_seq(), region.0@) ==> final(self).peer_seq() == old(
                self,
            ).peer_seq().update(
                peer_position(old(self).peer_seq(), region.0@),
                ReplicationPeer {
                    healthy,
                    ..old(self).peer_seq()[peer_position(old(self).peer_seq(), region.0@)]
                },
            ),
            !has_peer(old(self).peer_seq(), region.0@) ==> final(self).peer_seq() == old(
                self,
            ).peer_seq(),
            final(self).pending_seq() == old(self).pending_seq(),
            final(self).status_seq() == old(self).status_seq(),
            final(self).factor() == old(self).factor(),
            final(self).local() == old(self).local(),
    {
        let idx = self.find_peer(&region.0);
        if let Some(i) = idx {
            let mut p = self.peers[i].clone();
            p.healthy = healthy;
            self.peers.set(i, p);
        }
    }

    /// Records a measured latency for the peer of `region` and stamps it with the current
    /// time (read from the clock; see `update_peer_latency_at`); nothing happens if there is no such peer.
    pub fn update_peer_latency(&mut self, region: &RegionId, latency_ms: u64)
        requires
            old(self).wf(),
        ensures
            final(self).wf(),
            has_peer(old(self).peer_seq(), region.0@) ==> {
                let i = peer_position(old(self).peer_seq(), region.0@);
                let p = old(self).peer_seq()[i];
                let q = final(self).peer_seq()[i];
                &&& final(self).peer_seq().len() == old(self).peer_seq().len()
                &&& forall|j: int|
                    0 <= j < old(self).peer_seq().len() && j != i ==> final(self).peer_seq()[j]
                        == old(self).peer_seq()[j]
                &&& q.latency_ms == Some(latency_ms)
                &&& q.last_sync is Some
                &&& q == (ReplicationPeer { latency_ms: Some(latency_ms), last_sync: q.last_sync, ..p })
            },
            !has_peer(old(self).peer_seq(), region.0@) ==> final(self).peer_seq() == old(
                self,
            ).peer_seq(),
            final(self).pending_seq() == old(self).pending_seq(),
            final(self).status_seq() == old(self).status_seq(),
            final(self).factor() == old(self).factor(),
            final(self).local() == old(self).local(),
    {
        let now = unix_now_secs();
        self.update_peer_latency_at(region, latency_ms, now)
    }

    /// Records a measured latency for the peer of `region` and stamps it with the time
    /// `now`; nothing happens if there is no such peer.
    pub fn update_peer_latency_at(&mut self, region: &RegionId, latency_ms: u64, now: u64)
        requires
            old(self).wf(),
        ensures
            final(self).wf(),
            has_peer(old(self).peer_seq(), region.0@) ==> {
                let i = peer_position(old(self).peer_seq(), region.0@);
                let p = old(self).peer_seq()[i];
                let q = final(self).peer_seq()[i];
                &&& final(self).peer_seq().len() == old(self).peer_seq().len()
                &&& forall|j: int|
                    0 <= j < old(self).peer_seq().len() && j != i ==> final(self).peer_seq()[j]
                        == old(self).peer_seq()[j]
                &&& q.latency_ms == Some(latency_ms)
                &&& q == (ReplicationPeer { latency_ms: Some(latency_ms), last_sync: Some(now), ..p })
            },
            !has_peer(old(self).peer_seq(), region.0@) ==> final(self).peer_seq() == old(
                self,
            ).peer_seq(),
            final(self).pending_seq() == old(self).pending_seq(),
            final(self).status_seq() == old(self).status_seq(),
            final(self).factor() == old(self).factor(),
            final(self).local() == old(self).local(),
    {
        let idx = self.find_peer(&region.0);
        if let Some(i) = idx {
            let mut p = self.peers[i].clone();
            p.latency_ms = Some(latency_ms);
            p.last_sync = Some(now);
            self.peers.set(i, p);
        }
    }

    /// Picks the best healthy peer outside `exclude_regions`: lowest priority, then lowest
    /// known latency (a known latency before an unknown one). Among equally good peers
    /// any one may be returned.
    pub fn select_optimal_peer(&self, exclude_regions: &[RegionId]) -> (r: Option<ReplicationPeer>)
        ensures
            r is None <==> !(exists|i: int|
                0 <= i < self.peer_seq().len() && is_candidate(
                    #[trigger] self.peer_seq()[i],
                    exclude_regions@,
                )),
            r matches Some(p) ==> {
                &&& exists|i: int| 0 <= i < self.peer_seq().len() && #[trigger] self.peer_seq()[i] == p
                &&& is_candidate(p, exclude_regions@)
                &&& forall|i: int|
                    0 <= i < self.peer_seq().len() && is_candidate(
                        #[trigger] self.peer_seq()[i],
                        exclude_regions@,
                    ) ==> peer_not_worse(p, self.peer_seq()[i])
            },
            r matches Some(p) ==> p.healthy && !(exists|j: int|
                0 <= j < exclude_regions@.len() && (#[trigger] exclude_regions@[j]).0@ == p.region.0@)
                && forall|i: int|
                0 <= i < self.peer_seq().len() && (#[trigger] self.peer_seq()[i]).healthy && !(exists|j: int|
                    0 <= j < exclude_regions@.len() && (#[trigger] exclude_regions@[j]).0@
                        == self.peer_seq()[i].region.0@) ==> p.priority <= self.peer_seq()[i].priority,
            r is None ==> forall|i: int|
                0 <= i < self.peer_seq().len() && (#[trigger] self.peer_seq()[i]).healthy ==> exists|j: int|
                    0 <= j < exclude_regions@.len() && (#[trigger] exclude_regions@[j]).0@ == self.peer_seq()[i].region.0@,
    {
        let mut best: Option<usize> = None;
        let mut i: usize = 0;
        while i < self.peers.len()
            invariant
                i <= self.peers@.len(),
                best is None <==> !(exists|j: int|
                    0 <= j < i && is_candidate(#[trigger] self.peers@[j], exclude_regions@)),
                best matches Some(b) ==> {
                    &&& b < i
                    &&& is_candidate(self.peers@[b as int], exclude_regions@)
                    &&& forall|j: int|
                        0 <= j < i && is_candidate(#[trigger] self.peers@[j], exclude_regions@)
                            ==> peer_not_worse(self.peers@[b as int], self.peers@[j])
                },
            decreases self.peers@.len() - i,
        {
            let p = &self.peers[i];
            let mut excluded = false;
            let mut k: usize = 0;
            while k < exclude_regions.len()
                invariant
                    k <= exclude_regions@.len(),
                    i < self.peers@.len(),
                    *p == self.peers@[i as int],
                    excluded <==> exists|m: int|
                        0 <= m < k && (#[trigger] exclude_regions@[m]).0@ == p.region.0@,
                decreases exclude_regions@.len() - k,
            {
                if exclude_regions[k].0 == p.region.0 {
                    excluded = true;
                }
                k = k + 1;
            }
            assert(is_candidate(self.peers@[i as int], exclude_regions@) <==> (p.healthy && !excluded));
            if p.healthy && !excluded {
                match best {
                    None => {
                        best = Some(i);
                    },
                    Some(b) => {
                        let q = &self.peers[b];
                        let better = if p.priority != q.priority {
                            p.priority < q.priority
                        } else {
                            match (p.latency_ms, q.latency_ms) {
                                (Some(x), Some(y)) => x < y,
                                (Some(_), None) => true,
                                _ => false,
                            }
                        };
                        if better {
                            best = Some(i);
                        }
                    },
                }
            }
            i = i + 1;
        }
        match best {
            Some(b) => {
                let r = self.peers[b].clone();
                assert(self.peers@[b as int] == r);
                assert(self.peer_seq()[b as int] == r);
                assert(is_candidate(self.peer_seq()[b as int], exclude_regions@));
                Some(r)
            },
            None => None,
        }
    }

    /// The position of the status of `hash`, if any.
    fn find_status(&self, hash: &String) -> (r: Option<usize>)
        requires
            statuses_wf(self.synced_artifacts@),
        ensures
            match r {
                Some(i) => i < self.synced_artifacts@.len() && self.synced_artifacts@[i as int].hash@
                    == hash@ && i == status_position(self.synced_artifacts@, hash@),
                None => !has_status(self.synced_artifacts@, hash@),
            },
    {
        let mut i: usize = 0;
        while i < self.synced_artifacts.len()
            invariant
                i <= self.synced_artifacts@.len(),
                forall|j: int| 0 <= j < i ==> (#[trigger] self.synced_artifacts@[j]).hash@ != hash@,
            decreases self.synced_artifacts@.len() - i,
        {
            if self.synced_artifacts[i].hash == *hash {
                proof {
                    assert(has_status(self.synced_artifacts@, hash@));
                    let j = status_position(self.synced_artifacts@, hash@);
                    assert(self.synced_artifacts@[j].hash@ == hash@);
                }
                return Some(i);
            }
            i = i + 1;
        }
        None
    }

    /// The replication status of `hash`, if it was ever queued.
    pub fn get_replication_status(&self, hash: &ArtifactHash) -> (r: Option<ReplicationStatus>)
        requires
            self.wf(),
        ensures
            r is Some <==> has_status(self.status_seq(), hash.0@),
            r matches Some(st) ==> st.same_as(
                self.status_seq()[status_position(self.status_seq(), hash.0@)],
            ),
    {
        match self.find_status(&hash.0) {
            Some(i) => Some(self.synced_artifacts[i].clone()),
            None => None,
        }
    }

    /// Regions that hold a synced copy of `hash`; when none does (or the hash was never
    /// queued) the local region alone.
    pub fn locate_artifact(&self, hash: &ArtifactHash) -> (r: Vec<RegionId>)
        requires
            self.wf(),
        ensures
            ({
                let found = if has_status(self.status_seq(), hash.0@) {
                    synced_regions(
                        self.status_seq()[status_position(self.status_seq(), hash.0@)].regions@,
                    )
                } else {
                    Seq::empty()
                };
                if found.len() > 0 {
                    r@.map_values(|x: RegionId| x.0@) == found
                } else {
                    r@ == seq![self.local()]
                }
            }),
            r@.len() > 0,
            r@.map_values(|x: RegionId| x.0@).no_duplicates(),
    {
        proof {
            if has_status(self.status_seq(), hash.0@) {
                lemma_synced_regions_distinct(
                    self.status_seq()[status_position(self.status_seq(), hash.0@)].regions@,
                );
            }
        }
        let mut regions: Vec<RegionId> = Vec::new();
        let idx = self.find_status(&hash.0);
        if let Some(si) = idx {
            let entries = &self.synced_artifacts[si].regions;
            let mut i: usize = 0;
            while i < entries.len()
                invariant
                    i <= entries@.len(),
                    regions@.map_values(|x: RegionId| x.0@) == synced_regions(
                        entries@.take(i as int),
                    ),
                decreases entries@.len() - i,
            {
                proof {
                    assert(entries@.take(i + 1).drop_last() =~= entries@.take(i as int));
                }
                if entries[i].status.synced {
                    let id = RegionId(entries[i].region.clone());
                    regions.push(id);
                    proof {
                        assert(regions@.map_values(|x: RegionId| x.0@) =~= synced_regions(
                            entries@.take(i as int),
                        ).push(entries@[i as int].region@));
                    }
                } else {
                    proof {
                        assert(regions@.map_values(|x: RegionId| x.0@) =~= synced_regions(
                            entries@.take(i as int),
                        ));
                    }
                }
                i = i + 1;
            }
            proof {
                assert(entries@.take(i as int) =~= entries@);
            }
        }
        if regions.len() == 0 {
            proof {
                assert(regions@.map_values(|x: RegionId| x.0@).len() == 0);
            }
            regions.push(self.local_region.clone());
            proof {
                assert(regions@ =~= seq![self.local()]);
            }
        }
        regions
    }

    /// Whether `hash` is waiting in the queue.
    fn is_queued(&self, hash: &String) -> (r: bool)
        ensures
            r == is_pending(self.pending_queue@, hash@),
    {
        let mut i: usize = 0;
        while i < self.pending_queue.len()
            invariant
                i <= self.pending_queue@.len(),
                forall|j: int| 0 <= j < i ==> (#[trigger] self.pending_queue@[j]).0@ != hash@,
            decreases self.pending_queue@.len() - i,
        {
            if self.pending_queue[i].0 == *hash {
                return true;
            }
            i = i + 1;
        }
        false
    }

    /// Queues `hash` for replication (once), and makes sure its status holds an entry for
    /// every current peer; a status is created, stamped with the current time, when the
    /// hash has none yet.
    pub fn queue_for_replication(&mut self, hash: ArtifactHash)
        requires
            old(self).wf(),
        ensures
            final(self).wf(),
            final(self).pending_seq() == queued(old(self).pending_seq(), hash),
            has_status(old(self).status_seq(), hash.0@) ==> {
                let i = status_position(old(self).status_seq(), hash.0@);
                let o = old(self).status_seq()[i];
                let n = final(self).status_seq()[i];
                &&& final(self).status_seq().len() == old(self).status_seq().len()
                &&& forall|j: int|
                    0 <= j < old(self).status_seq().len() && j != i ==> final(self).status_seq()[j]
                        == old(self).status_seq()[j]
                &&& n.hash == o.hash
                &&& n.replication_factor == o.replication_factor
                &&& n.created_at == o.created_at
                &&& entries_extended(o.regions@, n.regions@, old(self).peer_seq())
            },
            !has_status(old(self).status_seq(), hash.0@) ==> {
                let k = old(self).status_seq().len() as int;
                let n = final(self).status_seq()[k];
                &&& final(self).status_seq().len() == k + 1
                &&& forall|j: int| 0 <= j < k ==> final(self).status_seq()[j] == old(self).status_seq()[j]
                &&& n.hash@ == hash.0@
                &&& n.replication_factor == old(self).factor()
                &&& entries_extended(Seq::empty(), n.regions@, old(self).peer_seq())
            },
            final(self).peer_seq() == old(self).peer_seq(),
            final(self).factor() == old(self).factor(),
            final(self).local() == old(self).local(),
    {
        let present = self.is_queued(&hash.0);
        if !present {
            self.pending_queue.push(hash.clone());
            proof {
                assert forall|i: int, j: int|
                    0 <= i < self.pending_queue@.len() && 0 <= j < self.pending_queue@.len() && i
                        != j implies (#[trigger] self.pending_queue@[i]).0@ != (
                    #[trigger] self.pending_queue@[j]).0@ by {
                    if i == self.pending_queue@.len() - 1 {
                        assert(self.pending_queue@[j] == old(self).pending_queue@[j]);
                    } else if j == self.pending_queue@.len() - 1 {
                        assert(self.pending_queue@[i] == old(self).pending_queue@[i]);
                    }
                }
            }
        }
        match self.find_status(&hash.0) {
            Some(i) => {
                let mut st = self.synced_artifacts[i].clone();
                extend_entries(&mut st.regions, &self.peers);
                self.synced_artifacts.set(i, st);
                proof {
                    assert forall|a: int, b: int|
                        0 <= a < self.synced_artifacts@.len() && 0 <= b
                            < self.synced_artifacts@.len() && a != b implies (
                    #[trigger] self.synced_artifacts@[a]).hash@ != (
                    #[trigger] self.synced_artifacts@[b]).hash@ by {
                        assert(old(self).synced_artifacts@[a].hash@ != old(self).synced_artifacts@[b].hash@);
                    }
                }
            },
            None => {
                let mut regions: Vec<RegionSyncEntry> = Vec::new();
                extend_entries(&mut regions, &self.peers);
                let st = ReplicationStatus {
                    hash: hash.0.clone(),
                    regions,
                    replication_factor: self.replication_factor,
                    created_at: unix_now_secs(),
                };
                self.synced_artifacts.push(st);
                proof {
                    assert forall|a: int, b: int|
                        0 <= a < self.synced_artifacts@.len() && 0 <= b
                            < self.synced_artifacts@.len() && a != b implies (
                    #[trigger] self.synced_artifacts@[a]).hash@ != (
                    #[trigger] self.synced_artifacts@[b]).hash@ by {
                        let k = old(self).synced_artifacts@.len() as int;
                        if a == k {
                            assert(self.synced_artifacts@[b] == old(self).synced_artifacts@[b]);
                        } else if b == k {
                            assert(self.synced_artifacts@[a] == old(self).synced_artifacts@[a]);
                        } else {
                            assert(old(self).synced_artifacts@[a].hash@ != old(self).synced_artifacts@[b].hash@);
                        }
                    }
                }
            },
        }
    }

    /// The statuses of the hashes of `done` have been through one replication pass, the
    /// others are as in `s0`.
    closed spec fn passed(self, s0: Seq<ReplicationStatus>, healthy: Seq<ReplicationPeer>, done: Seq<ArtifactHash>) -> bool {
        &&& self.synced_artifacts@.len() == s0.len()
        &&& forall|j: int|
            0 <= j < s0.len() ==> {
                let o = #[trigger] s0[j];
                let n = self.synced_artifacts@[j];
                if is_pending(done, o.hash@) {
                    &&& n.hash == o.hash
                    &&& n.replication_factor == o.replication_factor
                    &&& n.created_at == o.created_at
                    &&& entries_replicated(
                        o.regions@,
                        n.regions@,
                        chosen_regions(o.regions@, healthy, self.replication_factor as nat),
                    )
                } else {
                    n == o
                }
            }
    }

    /// One replication pass for the hash at position `i` of the queue.
    fn replicate_hash(
        &mut self,
        i: usize,
        healthy: &Vec<ReplicationPeer>,
        report: &mut ReplicationReport,
        Ghost(s0): Ghost<Seq<ReplicationStatus>>,
    )
        requires
            old(self).wf(),
            statuses_wf(s0),
            i < old(self).pending_queue@.len(),
            peer_keys_unique(healthy@),
            forall|t: int| 0 <= t < healthy@.len() ==> (#[trigger] healthy@[t]).healthy,
            old(self).pending_queue@.len() * healthy@.len() <= usize::MAX,
            forall|j: int, m: int|
                0 <= j < s0.len() && 0 <= m < s0[j].regions@.len() ==> (#[trigger] s0[j].regions@[m]).status.attempts < u32::MAX,
            old(self).passed(s0, healthy@, old(self).pending_queue@.take(i as int)),
            old(report).failed_replications == 0,
            old(report).successful_replications == total_chosen(
                s0,
                healthy@,
                old(self).replication_factor as nat,
                old(self).pending_queue@.take(i as int),
            ),
            counts_match(
                old(report).per_region@,
                |k: Seq<char>|
                    region_hits(
                        s0,
                        healthy@,
                        old(self).replication_factor as nat,
                        old(self).pending_queue@.take(i as int),
                        k,
                    ),
            ),
        ensures
            final(self).wf(),
            final(self).pending_queue@ == old(self).pending_queue@,
            final(self).peers@ == old(self).peers@,
            final(self).replication_factor == old(self).replication_factor,
            final(self).local_region == old(self).local_region,
            final(self).passed(s0, healthy@, old(self).pending_queue@.take(i + 1)),
            final(report).total_artifacts == old(report).total_artifacts,
            final(report).failed_replications == 0,
            final(report).successful_replications == total_chosen(
                s0,
                healthy@,
                old(self).replication_factor as nat,
                old(self).pending_queue@.take(i + 1),
            ),
            counts_match(
                final(report).per_region@,
                |k: Seq<char>|
                    region_hits(
                        s0,
                        healthy@,
                        old(self).replication_factor as nat,
                        old(self).pending_queue@.take(i + 1),
                        k,
                    ),
            ),
    {
        let ghost pq = self.pending_queue@;
        let plen = self.pending_queue.len();
        let ghost f = self.replication_factor as nat;
        let ghost hs = healthy@;
        let ghost h = pq[i as int].0@;
        proof {
            assert(pq.take(i + 1).drop_last() =~= pq.take(i as int));
            assert(pq.take(i + 1).last() == pq[i as int]);
            assert(!is_pending(pq.take(i as int), h)) by {
                if is_pending(pq.take(i as int), h) {
                    let t = choose|t: int| 0 <= t < i && (#[trigger] pq.take(i as int)[t]).0@ == h;
                    assert(pq.take(i as int)[t] == pq[t]);
                }
            }
            assert forall|hh: Seq<char>| is_pending(pq.take(i + 1), hh) <==> (is_pending(pq.take(i as int), hh) || hh == h) by {
                if is_pending(pq.take(i + 1), hh) {
                    let t = choose|t: int| 0 <= t < i + 1 && (#[trigger] pq.take(i + 1)[t]).0@ == hh;
                    if t < i {
                        assert(pq.take(i as int)[t] == pq.take(i + 1)[t]);
                    }
                }
                if is_pending(pq.take(i as int), hh) {
                    let t = choose|t: int| 0 <= t < i && (#[trigger] pq.take(i as int)[t]).0@ == hh;
                    assert(pq.take(i as int)[t] == pq.take(i + 1)[t]);
                }
                if hh == h {
                    assert(pq.take(i + 1)[i as int] == pq[i as int]);
                }
            }
            lemma_total_chosen_bound(s0, hs, f, pq.take(i as int));
            assert(i * hs.len() + hs.len() == (i + 1) * hs.len()) by (nonlinear_arith);
            assert((i + 1) * hs.len() <= pq.len() * hs.len()) by (nonlinear_arith)
                requires i + 1 <= pq.len();
            assert forall|j: int| 0 <= j < s0.len() implies (#[trigger] s0[j]).hash@ == self.synced_artifacts@[j].hash@ by {
                if is_pending(pq.take(i as int), s0[j].hash@) {
                } else {
                }
            }
        }
        let idx = self.find_status(&self.pending_queue[i].0);
        match idx {
            None => {
                proof {
                    assert(!has_status(s0, h)) by {
                        if has_status(s0, h) {
                            let j = choose|j: int| 0 <= j < s0.len() && (#[trigger] s0[j]).hash@ == h;
                            assert(self.synced_artifacts@[j].hash@ == h);
                        }
                    }
                    assert(chosen_for(s0, hs, f, h) =~= Seq::<Seq<char>>::empty());
                    assert forall|k: Seq<char>| region_hits(s0, hs, f, pq.take(i + 1), k) == region_hits(s0, hs, f, pq.take(i as int), k) by {
                    }
                    assert forall|j: int| 0 <= j < s0.len() implies (#[trigger] s0[j]).hash@ != h by {
                        if s0[j].hash@ == h {
                            assert(has_status(s0, h));
                        }
                    }
                    assert(self.wf());
                    let hf = |k: Seq<char>| region_hits(s0, healthy@, old(self).replication_factor as nat, old(self).pending_queue@.take(i + 1), k);
                    let hi = |k: Seq<char>| region_hits(s0, healthy@, old(self).replication_factor as nat, old(self).pending_queue@.take(i as int), k);
                    assert(hf =~= hi);
                }
            },
            Some(si) => {
                let ghost e0 = s0[si as int].regions@;
                proof {
                    assert(s0[si as int].hash@ == h);
                    assert(has_status(s0, h));
                    let sp = status_position(s0, h);
                    assert(s0[sp].hash@ == h);
                    assert(sp == si);
                    assert(!is_pending(pq.take(i as int), s0[si as int].hash@));
                    assert(self.synced_artifacts@[si as int] == s0[si as int]);
                }
                let mut st = self.synced_artifacts[si].clone();
                let mut j: usize = 0;
                let mut c: usize = 0;
                let ghost mut done: Seq<Seq<char>> = Seq::empty();
                proof {
                    assert(hs.skip(0) =~= hs);
                    assert(done + chosen_regions(e0, hs, f) =~= chosen_regions(e0, hs, f));
                    let h1 = |k: Seq<char>| region_hits(s0, hs, f, pq.take(i as int), k);
                    let h2 = |k: Seq<char>|
                        region_hits(s0, hs, f, pq.take(i as int), k) + if done.contains(k) { 1nat } else { 0nat };
                    assert(h1 =~= h2);
                }
                while j < healthy.len()
                    invariant
                        self.synced_artifacts@ == old(self).synced_artifacts@,
                        self.pending_queue@ == pq,
                        j <= hs.len(),
                        c == done.len(),
                        c <= j,
                        c <= f,
                        hs == healthy@,
                        st.hash == s0[si as int].hash,
                        st.replication_factor == s0[si as int].replication_factor,
                        st.created_at == s0[si as int].created_at,
                        entries_replicated(e0, st.regions@, done),
                        chosen_regions(e0, hs, f) == done + chosen_regions(e0, hs.skip(j as int), (f - c) as nat),
                        forall|m: int| 0 <= m < done.len() ==> exists|t: int| 0 <= t < j && #[trigger] done[m] == peer_key(#[trigger] hs[t]),
                        forall|m: int| 0 <= m < done.len() ==> has_entry(e0, #[trigger] done[m]),
                        report.total_artifacts == old(report).total_artifacts,
                        report.failed_replications == 0,
                        report.successful_replications == total_chosen(s0, hs, f, pq.take(i as int)) + c,
                        counts_match(
                            report.per_region@,
                            |k: Seq<char>|
                                region_hits(s0, hs, f, pq.take(i as int), k) + if done.contains(k) {
                                    1nat
                                } else {
                                    0nat
                                },
                        ),
                    decreases hs.len() - j,
                {
                    if c >= self.replication_factor {
                        break;
                    }
                    let peer = &healthy[j];
                    let key = &peer.region.0;
                    proof {
                        assert(hs.skip(j as int)[0] == hs[j as int]);
                        assert(hs.skip(j as int).drop_first() =~= hs.skip(j + 1));
                        assert(!done.contains(key@)) by {
                            if done.contains(key@) {
                                let m = choose|m: int| 0 <= m < done.len() && done[m] == key@;
                                let t = choose|t: int| 0 <= t < j && #[trigger] done[m] == peer_key(#[trigger] hs[t]);
                                assert(peer_key(hs[t]) != peer_key(hs[j as int]));
                            }
                        }
                    }
                    let success = simulate_replication(peer);
                    let found = find_entry(&st.regions, key);
                    proof {
                        assert(has_entry(st.regions@, key@) <==> has_entry(e0, key@)) by {
                            if has_entry(st.regions@, key@) {
                                let m = choose|m: int| 0 <= m < st.regions@.len() && (#[trigger] st.regions@[m]).region@ == key@;
                                assert(entry_replicated(e0[m], st.regions@[m], done));
                            }
                            if has_entry(e0, key@) {
                                let m = choose|m: int| 0 <= m < e0.len() && (#[trigger] e0[m]).region@ == key@;
                                assert(entry_replicated(e0[m], st.regions@[m], done));
                            }
                        }
                    }
                    if let Some(ei) = found {
                        let ghost done2 = done.push(key@);
                        proof {
                            assert(entry_replicated(e0[ei as int], st.regions@[ei as int], done));
                            assert(st.regions@[ei as int] == e0[ei as int]);
                            assert(e0[ei as int].status.attempts < u32::MAX) by {
                                assert(s0[si as int].regions@[ei as int] == e0[ei as int]);
                            }
                        }
                        let mut e = st.regions[ei].clone();
                        e.status.attempts = e.status.attempts + 1;
                        if success {
                            e.status.synced = true;
                            e.status.synced_at = Some(unix_now_secs());
                            e.status.last_error = None;
                            st.regions.set(ei, e);
                            c = c + 1;
                            report.successful_replications = report.successful_replications + 1;
                            let mut m: usize = 0;
                            let mut pos: Option<usize> = None;
                            while m < report.per_region.len()
                                invariant
                                    m <= report.per_region@.len(),
                                    pos matches Some(p) ==> p < m && report.per_region@[p as int].region@ == key@,
                                    pos is None ==> forall|q: int| 0 <= q < m ==> (#[trigger] report.per_region@[q]).region@ != key@,
                                decreases report.per_region@.len() - m,
                            {
                                if report.per_region[m].region == *key {
                                    pos = Some(m);
                                }
                                m = m + 1;
                            }
                            let ghost old_v = report.per_region@;
                            proof {
                                lemma_region_hits_bound(s0, hs, f, pq.take(i as int), key@);
                            }
                            match pos {
                                Some(p) => {
                                    proof {
                                        let hits_old = |k: Seq<char>|
                                            region_hits(s0, hs, f, pq.take(i as int), k) + if done.contains(k) { 1nat } else { 0nat };
                                        assert(report.per_region@[p as int].count == hits_old(key@));
                                        assert(hits_old(key@) == region_hits(s0, hs, f, pq.take(i as int), key@));
                                        assert(pq.take(i as int).len() == i);
                                        assert(i < pq.len());
                                        assert(plen == pq.len());
                                    }
                                    let rc = RegionCount {
                                        region: report.per_region[p].region.clone(),
                                        count: report.per_region[p].count + 1,
                                    };
                                    report.per_region.set(p, rc);
                                },
                                None => {
                                    report.per_region.push(RegionCount { region: key.clone(), count: 1 });
                                },
                            }
                            proof {
                                let hits_old = |k: Seq<char>|
                                    region_hits(s0, hs, f, pq.take(i as int), k) + if done.contains(k) { 1nat } else { 0nat };
                                let hits_new = |k: Seq<char>|
                                    region_hits(s0, hs, f, pq.take(i as int), k) + if done2.contains(k) { 1nat } else { 0nat };
                                assert forall|k: Seq<char>| k != key@ implies (done2.contains(k) <==> done.contains(k)) by {
                                    if done2.contains(k) {
                                        let q = choose|q: int| 0 <= q < done2.len() && done2[q] == k;
                                        assert(q < done.len());
                                        assert(done[q] == k);
                                    }
                                    if done.contains(k) {
                                        let q = choose|q: int| 0 <= q < done.len() && done[q] == k;
                                        assert(done2[q] == k);
                                    }
                                }
                                assert(done2.contains(key@)) by {
                                    assert(done2[done.len() as int] == key@);
                                }
                                let v = report.per_region@;
                                assert forall|a: int, b: int|
                                    0 <= a < v.len() && 0 <= b < v.len() && a != b implies (#[trigger] v[a]).region@ != (
                                    #[trigger] v[b]).region@ by {
                                    if pos is None {
                                        if a == old_v.len() {
                                            assert(v[b] == old_v[b]);
                                        } else if b == old_v.len() {
                                            assert(v[a] == old_v[a]);
                                        } else {
                                            assert(v[a] == old_v[a] && v[b] == old_v[b]);
                                        }
                                    } else {
                                        assert(v[a].region@ == old_v[a].region@);
                                        assert(v[b].region@ == old_v[b].region@);
                                    }
                                }
                                assert forall|q: int| 0 <= q < v.len() implies (#[trigger] v[q]).count == hits_new(v[q].region@) && v[q].count > 0 by {
                                    if pos is None && q == old_v.len() {
                                        assert(hits_old(key@) == 0) by {
                                            if hits_old(key@) > 0 {
                                                let z = choose|z: int| 0 <= z < old_v.len() && (#[trigger] old_v[z]).region@ == key@;
                                            }
                                        }
                                    } else {
                                        assert(v[q].region@ == old_v[q].region@);
                                    }
                                }
                                assert forall|k: Seq<char>| #[trigger] hits_new(k) > 0 implies exists|q: int| 0 <= q < v.len() && (#[trigger] v[q]).region@ == k by {
                                    if k == key@ {
                                        match pos {
                                            Some(p) => { assert(v[p as int].region@ == k); },
                                            None => { assert(v[old_v.len() as int].region@ == k); },
                                        }
                                    } else {
                                        assert(hits_old(k) > 0);
                                        let z = choose|z: int| 0 <= z < old_v.len() && (#[trigger] old_v[z]).region@ == k;
                                        assert(v[z].region@ == old_v[z].region@);
                                    }
                                }
                                assert(counts_match(v, hits_new));
                            }
                            proof {
                                done = done2;
                            }
                        } else {
                            e.status.last_error = Some("simulated network failure".to_string());
                            st.regions.set(ei, e);
                            report.failed_replications = report.failed_replications + 1;
                        }
                        proof {
                            assert forall|m: int| 0 <= m < e0.len() implies entry_replicated(#[trigger] e0[m], st.regions@[m], done) by {
                                if m == ei {
                                } else {
                                    assert(e0[m].region@ != key@);
                                }
                            }
                            assert forall|m: int| 0 <= m < done.len() implies exists|t: int| 0 <= t < j + 1 && #[trigger] done[m] == peer_key(#[trigger] hs[t]) by {
                                if m == done.len() - 1 {
                                    assert(done[m] == peer_key(hs[j as int]));
                                } else {
                                    let t = choose|t: int| 0 <= t < j && #[trigger] done[m] == peer_key(#[trigger] hs[t]);
                                }
                            }
                        }
                    } else {
                        proof {
                            assert(!has_entry(e0, key@));
                        }
                    }
                    j = j + 1;
                }
                proof {
                    if j == hs.len() {
                        assert(hs.skip(j as int).len() == 0);
                    }
                    assert(chosen_regions(e0, hs.skip(j as int), (f - c) as nat) =~= Seq::<Seq<char>>::empty());
                    assert(chosen_regions(e0, hs, f) =~= done);
                    assert(chosen_for(s0, hs, f, h) == done);
                }
                self.synced_artifacts.set(si, st);
                proof {
                    assert forall|k: Seq<char>| region_hits(s0, hs, f, pq.take(i + 1), k) == region_hits(s0, hs, f, pq.take(i as int), k) + if done.contains(k) { 1nat } else { 0nat } by {
                    }
                    assert forall|j2: int| 0 <= j2 < s0.len() && j2 != si implies (#[trigger] s0[j2]).hash@ != h by {
                        assert(s0[si as int].hash@ == h);
                    }
                    let hf = |k: Seq<char>| region_hits(s0, healthy@, old(self).replication_factor as nat, old(self).pending_queue@.take(i + 1), k);
                    let hd = |k: Seq<char>|
                        region_hits(s0, hs, f, pq.take(i as int), k) + if done.contains(k) { 1nat } else { 0nat };
                    assert(hf =~= hd);
                    let sa = self.synced_artifacts@;
                    assert(entry_keys_unique(sa[si as int].regions@)) by {
                        assert(entry_keys_unique(e0));
                        assert forall|x: int, y: int| 0 <= x < e0.len() && 0 <= y < e0.len() && x != y implies (#[trigger] sa[si as int].regions@[x]).region@ != (#[trigger] sa[si as int].regions@[y]).region@ by {
                            assert(entry_replicated(e0[x], sa[si as int].regions@[x], done));
                            assert(entry_replicated(e0[y], sa[si as int].regions@[y], done));
                        }
                    }
                    assert(statuses_wf(sa)) by {
                        assert forall|x: int| 0 <= x < sa.len() implies entry_keys_unique((#[trigger] sa[x]).regions@) by {
                            if x != si {
                                assert(sa[x] == old(self).synced_artifacts@[x]);
                            }
                        }
                        assert forall|x: int, y: int| 0 <= x < sa.len() && 0 <= y < sa.len() && x != y implies (#[trigger] sa[x]).hash@ != (#[trigger] sa[y]).hash@ by {
                            assert(sa[x].hash@ == old(self).synced_artifacts@[x].hash@);
                            assert(sa[y].hash@ == old(self).synced_artifacts@[y].hash@);
                        }
                    }
                }
            },
        }
    }

    /// Pushes every queued artifact to the first `factor` healthy peers (in peer order)
    /// whose region its status lists, then drops from the queue the artifacts whose status
    /// shows at least `factor` synced regions. A push to a healthy peer always succeeds.
    /// Whether `replicate_pending` can run: the pending artifacts times the peers fit in a
    /// `usize`, and no region's attempt counter is at `u32::MAX`.
    pub fn can_replicate_pending(&self) -> (r: bool)
        ensures
            r == (self.pending_seq().len() * self.peer_seq().len() <= usize::MAX && forall|j: int, m: int|
                0 <= j < self.status_seq().len() && 0 <= m < self.status_seq()[j].regions@.len()
                    ==> (#[trigger] self.status_seq()[j].regions@[m]).status.attempts < u32::MAX),
    {
        let np = self.pending_queue.len();
        let nq = self.peers.len();
        if np > 0 && nq > usize::MAX / np {
            proof {
                assert(np * nq > usize::MAX) by (nonlinear_arith)
                    requires
                        np > 0,
                        nq > usize::MAX / np,
                ;
            }
            return false;
        }
        proof {
            assert(np * nq <= usize::MAX) by (nonlinear_arith)
                requires
                    np == 0 || nq <= usize::MAX / np,
            ;
        }
        let mut j: usize = 0;
        while j < self.synced_artifacts.len()
            invariant
                j <= self.synced_artifacts@.len(),
                forall|a: int, m: int|
                    0 <= a < j && 0 <= m < self.synced_artifacts@[a].regions@.len()
                        ==> (#[trigger] self.synced_artifacts@[a].regions@[m]).status.attempts < u32::MAX,
            decreases self.synced_artifacts@.len() - j,
        {
            let regions = &self.synced_artifacts[j].regions;
            let mut m: usize = 0;
            while m < regions.len()
                invariant
                    m <= regions@.len(),
                    forall|t: int| 0 <= t < m ==> (#[trigger] regions@[t]).status.attempts < u32::MAX,
                decreases regions@.len() - m,
            {
                if regions[m].status.attempts == u32::MAX {
                    return false;
                }
                m = m + 1;
            }
            j = j + 1;
        }
        true
    }

    pub fn replicate_pending(&mut self) -> (r: ReplicationReport)
        requires
            old(self).wf(),
            old(self).pending_seq().len() * old(self).peer_seq().len() <= usize::MAX,
            forall|j: int, m: int|
                0 <= j < old(self).status_seq().len() && 0 <= m < old(self).status_seq()[j].regions@.len()
                    ==> (#[trigger] old(self).status_seq()[j].regions@[m]).status.attempts < u32::MAX,
        ensures
            final(self).wf(),
            final(self).peer_seq() == old(self).peer_seq(),
            final(self).factor() == old(self).factor(),
            final(self).local() == old(self).local(),
            r.total_artifacts == old(self).pending_seq().len(),
            r.failed_replications == 0,
            r.successful_replications == total_chosen(
                old(self).status_seq(),
                healthy_of(old(self).peer_seq()),
                old(self).factor() as nat,
                old(self).pending_seq(),
            ),
            counts_match(
                r.per_region@,
                |k: Seq<char>|
                    region_hits(
                        old(self).status_seq(),
                        healthy_of(old(self).peer_seq()),
                        old(self).factor() as nat,
                        old(self).pending_seq(),
                        k,
                    ),
            ),
            final(self).status_seq().len() == old(self).status_seq().len(),
            forall|j: int|
                0 <= j < old(self).status_seq().len() ==> {
                    let o = #[trigger] old(self).status_seq()[j];
                    let n = final(self).status_seq()[j];
                    if is_pending(old(self).pending_seq(), o.hash@) {
                        &&& n.hash == o.hash
                        &&& n.replication_factor == o.replication_factor
                        &&& n.created_at == o.created_at
                        &&& entries_replicated(
                            o.regions@,
                            n.regions@,
                            chosen_regions(
                                o.regions@,
                                healthy_of(old(self).peer_seq()),
                                old(self).factor() as nat,
                            ),
                        )
                    } else {
                        n == o
                    }
                },
            final(self).pending_seq() == old(self).pending_seq().filter(
                |h: ArtifactHash| keeps_pending(final(self).status_seq(), h.0@, old(self).factor() as nat),
            ),
    {
        let healthy = self.healthy_peers();
        let ghost s0 = self.synced_artifacts@;
        let ghost hs = healthy@;
        let ghost pq = self.pending_queue@;
        let ghost f = self.replication_factor as nat;
        proof {
            lemma_healthy_filter(self.peers@);
            self.peers@.lemma_filter_len(|p: ReplicationPeer| p.healthy);
            assert(pq.len() * hs.len() <= pq.len() * self.peers@.len()) by (nonlinear_arith)
                requires hs.len() <= self.peers@.len();
            assert forall|t: int| 0 <= t < hs.len() implies (#[trigger] hs[t]).healthy by {
                assert(healthy_of(self.peers@)[t].healthy);
            }
            assert(pq.take(0) =~= Seq::<ArtifactHash>::empty());
            let h0 = |k: Seq<char>| region_hits(s0, hs, f, pq.take(0), k);
            assert forall|k: Seq<char>| #[trigger] h0(k) == 0 by {}
            assert forall|j: int, m: int|
                0 <= j < s0.len() && 0 <= m < s0[j].regions@.len() implies (#[trigger] s0[j].regions@[m]).status.attempts < u32::MAX by {
                assert(old(self).status_seq()[j].regions@[m] == s0[j].regions@[m]);
            }
        }
        let mut report = ReplicationReport {
            total_artifacts: self.pending_queue.len(),
            successful_replications: 0,
            failed_replications: 0,
            per_region: Vec::new(),
        };
        let mut i: usize = 0;
        while i < self.pending_queue.len()
            invariant
                self.wf(),
                statuses_wf(s0),
                self.pending_queue@ == pq,
                self.peers@ == old(self).peers@,
                self.replication_factor == old(self).replication_factor,
                self.local_region == old(self).local_region,
                i <= pq.len(),
                hs == healthy@,
                hs == healthy_of(old(self).peers@),
                peer_keys_unique(hs),
                forall|t: int| 0 <= t < hs.len() ==> (#[trigger] hs[t]).healthy,
                pq.len() * hs.len() <= usize::MAX,
                forall|j: int, m: int|
                    0 <= j < s0.len() && 0 <= m < s0[j].regions@.len() ==> (#[trigger] s0[j].regions@[m]).status.attempts < u32::MAX,
                self.passed(s0, hs, pq.take(i as int)),
                report.total_artifacts == pq.len(),
                report.failed_replications == 0,
                report.successful_replications == total_chosen(s0, hs, f, pq.take(i as int)),
                counts_match(report.per_region@, |k: Seq<char>| region_hits(s0, hs, f, pq.take(i as int), k)),
            decreases pq.len() - i,
        {
            self.replicate_hash(i, &healthy, &mut report, Ghost(s0));
            i = i + 1;
        }
        proof {
            assert(pq.take(i as int) =~= pq);
        }
        let ghost s1 = self.synced_artifacts@;
        let mut kept: Vec<ArtifactHash> = Vec::new();
        let mut q: usize = 0;
        while q < self.pending_queue.len()
            invariant
                self.pending_queue@ == pq,
                self.synced_artifacts@ == s1,
                statuses_wf(s1),
                hashes_unique(pq),
                self.replication_factor as nat == f,
                q <= pq.len(),
                kept@ == pq.take(q as int).filter(|h: ArtifactHash| keeps_pending(s1, h.0@, f)),
                hashes_unique(kept@),
                forall|m: int| 0 <= m < kept@.len() ==> exists|t: int| 0 <= t < q && #[trigger] kept@[m] == #[trigger] pq[t],
            decreases pq.len() - q,
        {
            proof {
                reveal_with_fuel(Seq::filter, 1);
                assert(pq.take(q + 1).drop_last() =~= pq.take(q as int));
            }
            let h = &self.pending_queue[q];
            let keep = match self.find_status(&h.0) {
                None => true,
                Some(si) => {
                    let entries = &self.synced_artifacts[si].regions;
                    let mut n: usize = 0;
                    let mut e: usize = 0;
                    while e < entries.len()
                        invariant
                            e <= entries@.len(),
                            n == entries@.take(e as int).filter(|x: RegionSyncEntry| x.status.synced).len(),
                            n <= e,
                        decreases entries@.len() - e,
                    {
                        proof {
                            reveal_with_fuel(Seq::filter, 1);
                            assert(entries@.take(e + 1).drop_last() =~= entries@.take(e as int));
                        }
                        if entries[e].status.synced {
                            n = n + 1;
                        }
                        e = e + 1;
                    }
                    proof {
                        assert(entries@.take(e as int) =~= entries@);
                    }
                    n < self.replication_factor
                },
            };
            if keep {
                proof {
                    assert forall|a: int, b: int|
                        0 <= a < kept@.len() + 1 && 0 <= b < kept@.len() + 1 && a != b implies (#[trigger] kept@.push(*h)[a]).0@ != (#[trigger] kept@.push(*h)[b]).0@ by {
                        if a == kept@.len() {
                            let t = choose|t: int| 0 <= t < q && #[trigger] kept@[b] == #[trigger] pq[t];
                            assert(pq[t].0@ != pq[q as int].0@);
                        } else if b == kept@.len() {
                            let t = choose|t: int| 0 <= t < q && #[trigger] kept@[a] == #[trigger] pq[t];
                            assert(pq[t].0@ != pq[q as int].0@);
                        } else {
                            assert(kept@.push(*h)[a] == kept@[a]);
                            assert(kept@.push(*h)[b] == kept@[b]);
                        }
                    }
                }
                kept.push(h.clone());
                proof {
                    assert forall|m: int| 0 <= m < kept@.len() implies exists|t: int| 0 <= t < q + 1 && #[trigger] kept@[m] == #[trigger] pq[t] by {
                        if m == kept@.len() - 1 {
                            assert(kept@[m] == pq[q as int]);
                        } else {
                            let t = choose|t: int| 0 <= t < q && #[trigger] kept@[m] == #[trigger] pq[t];
                            assert(kept@[m] == pq[t]);
                        }
                    }
                }
            }
            q = q + 1;
        }
        proof {
            assert(pq.take(q as int) =~= pq);
        }
        self.pending_queue = kept;
        report
    }
}

} // verus!

verus! {

/// Adding a peer keeps region names unique, and afterwards looking its region up yields
/// exactly that peer; every other region keeps its peer.
pub proof fn law_added_peer_is_found(s: Seq<ReplicationPeer>, p: ReplicationPeer)
    requires
        peer_keys_unique(s),
    ensures
        peer_keys_unique(with_peer(s, p)),
        has_peer(with_peer(s, p), peer_key(p)),
        with_peer(s, p)[peer_position(with_peer(s, p), peer_key(p))] == p,
        forall|k: Seq<char>|
            k != peer_key(p) ==> (has_peer(with_peer(s, p), k) <==> has_peer(s, k)),
{
    let n = with_peer(s, p);
    if has_peer(s, peer_key(p)) {
        let i = peer_position(s, peer_key(p));
        assert(peer_key(s[i]) == peer_key(p));
        assert(peer_key(n[i]) == peer_key(p));
        assert forall|a: int, b: int| 0 <= a < n.len() && 0 <= b < n.len() && a != b implies #[trigger] peer_key(n[a]) != #[trigger] peer_key(n[b]) by {
            if a != i && b != i {
                assert(n[a] == s[a] && n[b] == s[b]);
            } else if a == i {
                assert(n[b] == s[b]);
                assert(peer_key(s[b]) != peer_key(s[i]));
            } else {
                assert(n[a] == s[a]);
                assert(peer_key(s[a]) != peer_key(s[i]));
            }
        }
        let j = peer_position(n, peer_key(p));
        assert(peer_key(n[j]) == peer_key(p));
        assert(j == i);
        assert forall|k: Seq<char>| k != peer_key(p) implies (has_peer(n, k) <==> has_peer(s, k)) by {
            if has_peer(n, k) {
                let m = choose|m: int| 0 <= m < n.len() && #[trigger] peer_key(n[m]) == k;
                assert(n[m] == s[m]);
            }
            if has_peer(s, k) {
                let m = choose|m: int| 0 <= m < s.len() && #[trigger] peer_key(s[m]) == k;
                assert(n[m] == s[m]);
            }
        }
    } else {
        let i = s.len() as int;
        assert(peer_key(n[i]) == peer_key(p));
        assert forall|a: int, b: int| 0 <= a < n.len() && 0 <= b < n.len() && a != b implies #[trigger] peer_key(n[a]) != #[trigger] peer_key(n[b]) by {
            if a != i && b != i {
                assert(n[a] == s[a] && n[b] == s[b]);
            } else if a == i {
                assert(n[b] == s[b]);
            } else {
                assert(n[a] == s[a]);
            }
        }
        let j = peer_position(n, peer_key(p));
        assert(peer_key(n[j]) == peer_key(p));
        assert(j == i);
        assert forall|k: Seq<char>| k != peer_key(p) implies (has_peer(n, k) <==> has_peer(s, k)) by {
            if has_peer(n, k) {
                let m = choose|m: int| 0 <= m < n.len() && #[trigger] peer_key(n[m]) == k;
                assert(n[m] == s[m]);
            }
            if has_peer(s, k) {
                let m = choose|m: int| 0 <= m < s.len() && #[trigger] peer_key(s[m]) == k;
                assert(n[m] == s[m]);
            }
        }
    }
}

/// After the peer of a region is removed no peer of that region remains, and every other
/// region keeps its peer.
pub proof fn law_removed_peer_is_gone(s: Seq<ReplicationPeer>, k: Seq<char>)
    requires
        peer_keys_unique(s),
    ensures
        !has_peer(without_peer(s, k), k),
        forall|k2: Seq<char>| k2 != k ==> (has_peer(without_peer(s, k), k2) <==> has_peer(s, k2)),
{
    let n = without_peer(s, k);
    if has_peer(s, k) {
        let i = peer_position(s, k);
        assert(peer_key(s[i]) == k);
        if has_peer(n, k) {
            let m = choose|m: int| 0 <= m < n.len() && #[trigger] peer_key(n[m]) == k;
            if m < i {
                assert(n[m] == s[m]);
            } else {
                assert(n[m] == s[m + 1]);
            }
        }
        assert forall|k2: Seq<char>| k2 != k implies (has_peer(n, k2) <==> has_peer(s, k2)) by {
            if has_peer(n, k2) {
                let m = choose|m: int| 0 <= m < n.len() && #[trigger] peer_key(n[m]) == k2;
                if m < i {
                    assert(n[m] == s[m]);
                } else {
                    assert(n[m] == s[m + 1]);
                }
            }
            if has_peer(s, k2) {
                let m = choose|m: int| 0 <= m < s.len() && #[trigger] peer_key(s[m]) == k2;
                if m < i {
                    assert(n[m] == s[m]);
                } else {
                    assert(m != i);
                    assert(n[m - 1] == s[m]);
                }
            }
        }
    }
}

/// Queuing a hash leaves it waiting exactly once: queuing it again changes nothing, and
/// no hash ever waits twice.
pub proof fn law_queue_is_idempotent(q: Seq<ArtifactHash>, h: ArtifactHash)
    requires
        hashes_unique(q),
    ensures
        is_pending(queued(q, h), h.0@),
        queued(queued(q, h), h) == queued(q, h),
        hashes_unique(queued(q, h)),
{
    let n = queued(q, h);
    if !is_pending(q, h.0@) {
        assert(n[q.len() as int] == h);
        assert forall|a: int, b: int| 0 <= a < n.len() && 0 <= b < n.len() && a != b implies (#[trigger] n[a]).0@ != (#[trigger] n[b]).0@ by {
            if a == q.len() {
                assert(n[b] == q[b]);
            } else if b == q.len() {
                assert(n[a] == q[a]);
            } else {
                assert(n[a] == q[a] && n[b] == q[b]);
            }
        }
    }
}

/// The peers offered for replication are healthy peers of the replicator, without two
/// of the same region.
pub proof fn law_healthy_peers_are_healthy_members(s: Seq<ReplicationPeer>)
    requires
        peer_keys_unique(s),
    ensures
        peer_keys_unique(healthy_of(s)),
        forall|i: int|
            0 <= i < healthy_of(s).len() ==> (#[trigger] healthy_of(s)[i]).healthy && s.contains(
                healthy_of(s)[i],
            ),
{
    lemma_healthy_filter(s);
    assert forall|i: int| 0 <= i < healthy_of(s).len() implies (#[trigger] healthy_of(s)[i]).healthy
        && s.contains(healthy_of(s)[i]) by {
        let j = choose|j: int| 0 <= j < s.len() && s[j] == healthy_of(s)[i];
        assert(s[j] == healthy_of(s)[i]);
    }
}

/// An artifact is never pushed to more regions than the replication factor, nor to more
/// regions than there are healthy peers.
pub proof fn law_push_count_bounded(
    e: Seq<RegionSyncEntry>,
    healthy: Seq<ReplicationPeer>,
    factor: nat,
)
    ensures
        chosen_regions(e, healthy, factor).len() <= factor,
        chosen_regions(e, healthy, factor).len() <= healthy.len(),
{
    lemma_chosen_len(e, healthy, factor);
}

/// L2 geo-distributed cache layer settings.
pub struct GeoCacheConfig {
    pub local_region: String,
    pub l2_regions: Vec<String>,
    pub replication_factor: usize,
    pub sync_interval_secs: u64,
}

impl Default for GeoCacheConfig {
    fn default() -> (r: Self)
        ensures
            r.local_region@ == "us-east-1"@,
            r.l2_regions@.len() == 2,
            r.l2_regions@[0]@ == "us-west-2"@,
            r.l2_regions@[1]@ == "eu-west-1"@,
            r.replication_factor == 2,
            r.sync_interval_secs == 300,
    {
        let mut l2: Vec<String> = Vec::new();
        l2.push("us-west-2".to_string());
        l2.push("eu-west-1".to_string());
        GeoCacheConfig {
            local_region: "us-east-1".to_string(),
            l2_regions: l2,
            replication_factor: 2,
            sync_interval_secs: 300,
        }
    }
}

/// When every healthy peer has an entry in `e`, the regions chosen for a push are the first
/// `min(budget, |peers|)` peers.
proof fn lemma_chosen_all(e: Seq<RegionSyncEntry>, peers: Seq<ReplicationPeer>, budget: nat)
    requires
        forall|i: int| 0 <= i < peers.len() ==> has_entry(e, peer_key(#[trigger] peers[i])),
    ensures
        chosen_regions(e, peers, budget).len() == if budget <= peers.len() {
            budget as int
        } else {
            peers.len() as int
        },
    decreases peers.len(),
{
    if peers.len() > 0 && budget > 0 {
        let rest = peers.drop_first();
        assert forall|i: int| 0 <= i < rest.len() implies has_entry(e, peer_key(#[trigger] rest[i])) by {
            assert(rest[i] == peers[i + 1]);
        }
        assert(has_entry(e, peer_key(peers[0])));
        lemma_chosen_all(e, rest, (budget - 1) as nat);
    }
}

/// When every pending artifact has a status in which every healthy peer has an entry (as
/// when the peers were added before the artifacts were queued), a replication run pushes
/// each artifact to `min(F, |H|)` regions: `|Q| * min(F, |H|)` pushes in all, for `F` the
/// replication factor, `H` the healthy peers and `Q` the pending queue.
pub proof fn law_pushes_per_run(
    statuses: Seq<ReplicationStatus>,
    healthy: Seq<ReplicationPeer>,
    factor: nat,
    pending: Seq<ArtifactHash>,
)
    requires
        forall|j: int|
            0 <= j < pending.len() ==> has_status(statuses, (#[trigger] pending[j]).0@) && forall|i: int|
                0 <= i < healthy.len() ==> has_entry(
                    statuses[status_position(statuses, pending[j].0@)].regions@,
                    peer_key(#[trigger] healthy[i]),
                ),
    ensures
        total_chosen(statuses, healthy, factor, pending) == pending.len() * (if factor <= healthy.len() {
            factor as int
        } else {
            healthy.len() as int
        }),
    decreases pending.len(),
{
    let m: int = if factor <= healthy.len() {
        factor as int
    } else {
        healthy.len() as int
    };
    if pending.len() > 0 {
        let prev = pending.drop_last();
        assert forall|j: int| 0 <= j < prev.len() implies has_status(statuses, (#[trigger] prev[j]).0@) && forall|i: int|
            0 <= i < healthy.len() ==> has_entry(
                statuses[status_position(statuses, prev[j].0@)].regions@,
                peer_key(#[trigger] healthy[i]),
            ) by {
            assert(prev[j] == pending[j]);
        }
        law_pushes_per_run(statuses, healthy, factor, prev);
        let h = pending.last().0@;
        assert(pending.last() == pending[pending.len() - 1]);
        lemma_chosen_all(statuses[status_position(statuses, h)].regions@, healthy, factor);
        assert(prev.len() * m + m == pending.len() * m) by (nonlinear_arith)
            requires
                prev.len() + 1 == pending.len(),
        ;
    }
}

} // verus!
