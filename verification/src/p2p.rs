use vstd::prelude::*;
use crate::clock::unix_now_secs;
use crate::digest::{blake3_hex, blake3_hex_of};
use crate::keyed::{keyed, keys_distinct, has_key, lemma_keyed_dom, lemma_keyed_value, lemma_keyed_update, lemma_keyed_push};
use crate::text::{decimal, decimal_string, str_eq};

verus! {

/// Identity of a peer of the mesh.
#[derive(Debug)]
pub struct PeerId(pub String);

impl Clone for PeerId {
    fn clone(&self) -> (r: Self)
        ensures
            r == *self,
    {
        PeerId(self.0.clone())
    }
}

impl PeerId {
    pub fn new(id: &str) -> (r: Self)
        ensures
            r.0@ == id@,
    {
        PeerId(id.to_string())
    }

    /// The identity as text.
    pub fn to_text(&self) -> (r: String)
        ensures
            r@ == self.0@,
    {
        self.0.clone()
    }
}

/// One chunk of an artifact.
#[derive(Debug)]
pub struct ChunkInfo {
    pub hash: String,
    pub size_bytes: u64,
    pub index: usize,
    pub total_chunks: usize,
}

impl Clone for ChunkInfo {
    fn clone(&self) -> (r: Self)
        ensures
            r == *self,
    {
        ChunkInfo {
            hash: self.hash.clone(),
            size_bytes: self.size_bytes,
            index: self.index,
            total_chunks: self.total_chunks,
        }
    }
}

/// How an artifact is cut into chunks.
#[derive(Debug)]
pub struct TorrentManifest {
    pub artifact_hash: String,
    pub total_size: u64,
    pub chunk_size: u64,
    pub chunks: Vec<ChunkInfo>,
    pub created_at: u64,
}

/// The number of chunks of `chunk_size` bytes that cover `n` bytes.
pub open spec fn chunk_total(n: int, chunk_size: int) -> int {
    (n + chunk_size - 1) / chunk_size
}

/// The first byte of chunk `i`.
pub open spec fn chunk_start(i: int, chunk_size: int) -> int {
    i * chunk_size
}

/// One past the last byte of chunk `i` of `n` bytes.
pub open spec fn chunk_end(i: int, chunk_size: int, n: int) -> int {
    if (i + 1) * chunk_size < n {
        (i + 1) * chunk_size
    } else {
        n
    }
}

/// `c` is chunk `i` of `data` cut into `chunk_size`-byte pieces: its bytes' digest, its
/// length, its position and the number of chunks.
pub open spec fn is_chunk_of(c: ChunkInfo, data: Seq<u8>, chunk_size: int, i: int) -> bool {
    let start = chunk_start(i, chunk_size);
    let end = chunk_end(i, chunk_size, data.len() as int);
    &&& c.hash@ == blake3_hex_of(data.subrange(start, end))
    &&& c.size_bytes == end - start
    &&& c.index == i
    &&& c.total_chunks == chunk_total(data.len() as int, chunk_size)
}

proof fn lemma_chunk_bounds(i: int, cs: int, n: int)
    requires
        cs > 0,
        n >= 0,
        0 <= i < chunk_total(n, cs),
    ensures
        0 <= i * cs < n,
        (i + 1) * cs <= n + cs - 1,
        (i + 1) * cs == i * cs + cs,
{
    assert((i + 1) * cs == i * cs + cs) by (nonlinear_arith);
    let q = chunk_total(n, cs);
    assert(q * cs <= n + cs - 1) by (nonlinear_arith)
        requires
            q == (n + cs - 1) / cs,
            cs > 0,
            n >= 0,
    ;
    assert((i + 1) * cs <= q * cs) by (nonlinear_arith)
        requires
            i + 1 <= q,
            cs > 0,
    ;
    assert(0 <= i * cs) by (nonlinear_arith)
        requires
            i >= 0,
            cs > 0,
    ;
}

proof fn lemma_chunk_total_bound(n: int, cs: int)
    requires
        cs > 0,
        n >= 0,
    ensures
        0 <= chunk_total(n, cs) <= n,
{
    assert((n + cs - 1) / cs <= n) by (nonlinear_arith)
        requires
            cs > 0,
            n >= 0,
    {
        assert(n * cs >= n) by (nonlinear_arith)
            requires
                cs > 0,
                n >= 0,
        ;
        assert(n + cs - 1 < (n + 1) * cs) by (nonlinear_arith)
            requires
                cs > 0,
                n >= 0,
                n * cs >= n,
        ;
    }
    assert((n + cs - 1) / cs >= 0) by (nonlinear_arith)
        requires
            cs > 0,
            n >= 0,
    ;
}

impl TorrentManifest {
    /// Cuts the bytes of the artifact with digest `artifact_hash` into `chunk_size`-byte
    /// chunks (the last one shorter) and records each chunk's digest, length and position.
    pub fn from_artifact(artifact_hash: &str, data: &[u8], chunk_size: u64) -> (r: Self)
        requires
            chunk_size > 0,
            data@.len() + chunk_size - 1 <= u64::MAX,
        ensures
            r.artifact_hash@ == artifact_hash@,
            r.total_size == data@.len(),
            r.chunk_size == chunk_size,
            r.chunks@.len() == chunk_total(data@.len() as int, chunk_size as int),
            forall|i: int|
                0 <= i < r.chunks@.len() ==> is_chunk_of(#[trigger] r.chunks@[i], data@, chunk_size as int, i),
    {
        let n: u64 = data.len() as u64;
        let total: u64 = (n + (chunk_size - 1)) / chunk_size;
        proof {
            lemma_chunk_total_bound(n as int, chunk_size as int);
        }
        let total_chunks: usize = total as usize;
        let mut chunks: Vec<ChunkInfo> = Vec::new();
        let mut i: usize = 0;
        while i < total_chunks
            invariant
                n == data@.len(),
                total == chunk_total(n as int, chunk_size as int),
                total_chunks == total,
                i <= total_chunks,
                chunks@.len() == i,
                forall|j: int|
                    0 <= j < i ==> is_chunk_of(#[trigger] chunks@[j], data@, chunk_size as int, j),
            decreases total_chunks - i,
        {
            proof {
                lemma_chunk_bounds(i as int, chunk_size as int, n as int);
            }
            let start: u64 = i as u64 * chunk_size;
            let next: u64 = (i as u64 + 1) * chunk_size;
            let end: u64 = if next < n { next } else { n };
            let hash = blake3_hex(&data[start as usize..end as usize]);
            proof {
                assert(data@.subrange(start as int, end as int) == data@.subrange(
                    chunk_start(i as int, chunk_size as int),
                    chunk_end(i as int, chunk_size as int, n as int),
                ));
            }
            chunks.push(ChunkInfo { hash, size_bytes: end - start, index: i, total_chunks });
            i = i + 1;
        }
        TorrentManifest {
            artifact_hash: artifact_hash.to_string(),
            total_size: n,
            chunk_size,
            chunks,
            created_at: unix_now_secs(),
        }
    }

    pub fn chunk_count(&self) -> (r: usize)
        ensures
            r == self.chunks@.len(),
    {
        self.chunks.len()
    }
}

/// Transfer counters of a router.
#[derive(Debug)]
pub struct DownloadStats {
    pub total_bytes_downloaded: u64,
    pub total_bytes_uploaded: u64,
    pub chunks_downloaded: u64,
    pub chunks_uploaded: u64,
    pub peers_contacted: u64,
    pub failed_downloads: u64,
}

impl Clone for DownloadStats {
    fn clone(&self) -> (r: Self)
        ensures
            r == *self,
    {
        DownloadStats { ..*self }
    }
}

impl Default for DownloadStats {
    fn default() -> (r: Self)
        ensures
            r == (DownloadStats {
                total_bytes_downloaded: 0,
                total_bytes_uploaded: 0,
                chunks_downloaded: 0,
                chunks_uploaded: 0,
                peers_contacted: 0,
                failed_downloads: 0,
            }),
    {
        DownloadStats {
            total_bytes_downloaded: 0,
            total_bytes_uploaded: 0,
            chunks_downloaded: 0,
            chunks_uploaded: 0,
            peers_contacted: 0,
            failed_downloads: 0,
        }
    }
}

/// Chunk `a` goes before chunk `b` when fewer peers hold it, ties kept in manifest order.
pub open spec fn rarer(avail: Seq<usize>, a: int, b: int) -> bool {
    avail[a] < avail[b] || (avail[a] == avail[b] && a < b)
}

/// `ord` lists every position of `avail` once, rarest first, ties kept in input order.
pub open spec fn is_rarest_order(avail: Seq<usize>, ord: Seq<int>) -> bool {
    &&& ord.len() == avail.len()
    &&& forall|k: int| 0 <= k < ord.len() ==> 0 <= #[trigger] ord[k] < avail.len()
    &&& forall|a: int, b: int| 0 <= a < b < ord.len() ==> rarer(avail, #[trigger] ord[a], #[trigger] ord[b])
}

/// The positions of the chunks, rarest first; `availability[i]` is how many peers hold
/// chunk `i`.
pub fn rarest_first_order(availability: &[usize]) -> (r: Vec<usize>)
    ensures
        is_rarest_order(availability@, r@.map_values(|i: usize| i as int)),
        r@.len() == availability@.len(),
        forall|k: int| 0 <= k < r@.len() ==> #[trigger] r@[k] < availability@.len(),
        forall|a: int, b: int|
            0 <= a < b < r@.len() ==> r@[a] != r@[b] && availability@[#[trigger] r@[a] as int]
                <= availability@[#[trigger] r@[b] as int],
{
    let ghost avail = availability@;
    let mut r: Vec<usize> = Vec::new();
    let mut i: usize = 0;
    while i < availability.len()
        invariant
            i <= avail.len(),
            avail == availability@,
            r@.len() == i,
            forall|k: int| 0 <= k < r@.len() ==> #[trigger] r@[k] < i,
            forall|a: int, b: int| 0 <= a < b < r@.len() ==> rarer(avail, #[trigger] r@[a] as int, #[trigger] r@[b] as int),
        decreases avail.len() - i,
    {
        let mut p: usize = 0;
        while p < r.len() && availability[r[p]] <= availability[i]
            invariant
                p <= r@.len(),
                forall|k: int| 0 <= k < r@.len() ==> #[trigger] r@[k] < i,
                forall|k: int| 0 <= k < p ==> avail[#[trigger] r@[k] as int] <= avail[i as int],
            decreases r@.len() - p,
        {
            p = p + 1;
        }
        let ghost old_r = r@;
        r.insert(p, i);
        proof {
            assert(r@ =~= old_r.insert(p as int, i));
            assert forall|a: int, b: int| 0 <= a < b < r@.len() implies rarer(avail, #[trigger] r@[a] as int, #[trigger] r@[b] as int) by {
                if b < p {
                    assert(r@[a] == old_r[a] && r@[b] == old_r[b]);
                } else if b == p {
                    assert(r@[a] == old_r[a]);
                } else if a == p {
                    assert(r@[b] == old_r[b - 1]);
                    assert(avail[old_r[p as int] as int] > avail[i as int]);
                    if b - 1 > p {
                        assert(rarer(avail, old_r[p as int] as int, old_r[b - 1] as int));
                    }
                } else if a < p {
                    assert(r@[a] == old_r[a] && r@[b] == old_r[b - 1]);
                } else {
                    assert(r@[a] == old_r[a - 1] && r@[b] == old_r[b - 1]);
                }
            }
        }
        i = i + 1;
    }
    r
}

/// The chunks of a manifest, rarest first (see `is_rarest_order`).
pub fn rarest_chunks_first(chunks: &[ChunkInfo], availability: &[usize]) -> (r: Vec<ChunkInfo>)
    requires
        chunks@.len() == availability@.len(),
    ensures
        exists|ord: Seq<int>|
            is_rarest_order(availability@, ord) && r@.len() == ord.len() && forall|k: int|
                0 <= k < ord.len() ==> #[trigger] r@[k] == chunks@[ord[k]],
{
    let order = rarest_first_order(availability);
    let ghost ord = order@.map_values(|i: usize| i as int);
    let mut r: Vec<ChunkInfo> = Vec::new();
    let mut k: usize = 0;
    while k < order.len()
        invariant
            k <= order@.len(),
            ord == order@.map_values(|i: usize| i as int),
            is_rarest_order(availability@, ord),
            chunks@.len() == availability@.len(),
            r@.len() == k,
            forall|j: int| 0 <= j < k ==> #[trigger] r@[j] == chunks@[ord[j]],
        decreases order@.len() - k,
    {
        proof {
            assert(0 <= ord[k as int] < availability@.len());
        }
        r.push(chunks[order[k]].clone());
        k = k + 1;
    }
    r
}

/// Peer `a` is unchoked before peer `b`: it downloads faster, or as fast with a better
/// standing (a lower reputation rank), ties kept in input order.
pub open spec fn unchoke_before(speed: Seq<u64>, rank: Seq<u64>, a: int, b: int) -> bool {
    ||| speed[a] > speed[b]
    ||| speed[a] == speed[b] && rank[a] < rank[b]
    ||| speed[a] == speed[b] && rank[a] == rank[b] && a < b
}

/// `ord` lists every peer once, in unchoking order (see `unchoke_before`).
pub open spec fn is_unchoke_order(speed: Seq<u64>, rank: Seq<u64>, ord: Seq<int>) -> bool {
    &&& ord.len() == speed.len()
    &&& forall|k: int| 0 <= k < ord.len() ==> 0 <= #[trigger] ord[k] < speed.len()
    &&& forall|a: int, b: int|
        0 <= a < b < ord.len() ==> unchoke_before(speed, rank, #[trigger] ord[a], #[trigger] ord[b])
}

/// The positions of the peers to unchoke: the first `max_unchoked` of all peers ordered by
/// download speed, fastest first, then by reputation rank (0 for the best standing),
/// ties in input order; `speed[i]` and `rank[i]` describe peer `i`.
pub fn unchoke_order(speed: &[u64], rank: &[u64], max_unchoked: usize) -> (r: Vec<usize>)
    requires
        speed@.len() == rank@.len(),
    ensures
        exists|ord: Seq<int>|
            is_unchoke_order(speed@, rank@, ord) && r@.map_values(|i: usize| i as int) == ord.take(
                if max_unchoked <= ord.len() {
                    max_unchoked as int
                } else {
                    ord.len() as int
                },
            ),
        r@.len() == if max_unchoked <= speed@.len() {
            max_unchoked as int
        } else {
            speed@.len() as int
        },
        forall|k: int| 0 <= k < r@.len() ==> #[trigger] r@[k] < speed@.len(),
        forall|a: int, b: int|
            0 <= a < b < r@.len() ==> r@[a] != r@[b] && speed@[#[trigger] r@[a] as int] >= speed@[#[trigger] r@[b] as int],
{
    let ghost sp = speed@;
    let ghost rk = rank@;
    let mut r: Vec<usize> = Vec::new();
    let mut i: usize = 0;
    while i < speed.len()
        invariant
            i <= sp.len(),
            sp == speed@,
            rk == rank@,
            sp.len() == rk.len(),
            r@.len() == i,
            forall|k: int| 0 <= k < r@.len() ==> #[trigger] r@[k] < i,
            forall|a: int, b: int|
                0 <= a < b < r@.len() ==> unchoke_before(sp, rk, #[trigger] r@[a] as int, #[trigger] r@[b] as int),
        decreases sp.len() - i,
    {
        let mut p: usize = 0;
        while p < r.len() && !(speed[i] > speed[r[p]] || (speed[i] == speed[r[p]] && rank[i] < rank[r[p]]))
            invariant
                p <= r@.len(),
                i < sp.len(),
                forall|k: int| 0 <= k < r@.len() ==> #[trigger] r@[k] < i,
                forall|k: int| 0 <= k < p ==> unchoke_before(sp, rk, #[trigger] r@[k] as int, i as int),
            decreases r@.len() - p,
        {
            p = p + 1;
        }
        let ghost old_r = r@;
        r.insert(p, i);
        proof {
            assert(r@ =~= old_r.insert(p as int, i));
            assert forall|a: int, b: int| 0 <= a < b < r@.len() implies unchoke_before(
                sp,
                rk,
                #[trigger] r@[a] as int,
                #[trigger] r@[b] as int,
            ) by {
                if b < p {
                    assert(r@[a] == old_r[a] && r@[b] == old_r[b]);
                } else if b == p {
                    assert(r@[a] == old_r[a]);
                } else if a == p {
                    assert(r@[b] == old_r[b - 1]);
                    assert(unchoke_before(sp, rk, i as int, old_r[p as int] as int));
                    if b - 1 > p {
                        assert(unchoke_before(sp, rk, old_r[p as int] as int, old_r[b - 1] as int));
                    }
                } else if a < p {
                    assert(r@[a] == old_r[a] && r@[b] == old_r[b - 1]);
                } else {
                    assert(r@[a] == old_r[a - 1] && r@[b] == old_r[b - 1]);
                }
            }
        }
        i = i + 1;
    }
    let ghost ord = r@.map_values(|x: usize| x as int);
    let keep = if max_unchoked <= r.len() { max_unchoked } else { r.len() };
    let mut out: Vec<usize> = Vec::new();
    let mut k: usize = 0;
    while k < keep
        invariant
            k <= keep <= r@.len(),
            out@.map_values(|x: usize| x as int) == ord.take(k as int),
            ord == r@.map_values(|x: usize| x as int),
        decreases keep - k,
    {
        out.push(r[k]);
        proof {
            assert(out@.map_values(|x: usize| x as int) =~= ord.take(k + 1));
        }
        k = k + 1;
    }
    proof {
        assert(is_unchoke_order(sp, rk, ord));
        assert forall|k: int| 0 <= k < out@.len() implies #[trigger] out@[k] < speed@.len() by {
            assert(out@.map_values(|x: usize| x as int)[k] == ord[k]);
        }
        assert forall|a: int, b: int| 0 <= a < b < out@.len() implies out@[a] != out@[b] && speed@[#[trigger] out@[a] as int]
            >= speed@[#[trigger] out@[b] as int] by {
            assert(out@.map_values(|x: usize| x as int)[a] == ord[a]);
            assert(out@.map_values(|x: usize| x as int)[b] == ord[b]);
            assert(unchoke_before(sp, rk, ord[a], ord[b]));
        }
    }
    out
}

/// The bytes of `data` from `start` up to `end`.
pub fn copy_range(data: &[u8], start: usize, end: usize) -> (r: Vec<u8>)
    requires
        start <= end <= data@.len(),
    ensures
        r@ == data@.subrange(start as int, end as int),
{
    let mut r: Vec<u8> = Vec::new();
    let mut k: usize = start;
    while k < end
        invariant
            start <= k <= end,
            end <= data@.len(),
            r@ == data@.subrange(start as int, k as int),
        decreases end - k,
    {
        r.push(data[k]);
        proof {
            assert(r@ =~= data@.subrange(start as int, k + 1));
        }
        k = k + 1;
    }
    r
}

/// A chunk held by this node.
struct StoredChunk {
    hash: String,
    data: Vec<u8>,
}

spec fn stored_key() -> spec_fn(StoredChunk) -> Seq<char> {
    |e: StoredChunk| e.hash@
}

/// The chunks this node holds, by digest.
pub struct LocalChunkStore {
    entries: Vec<StoredChunk>,
}

/// The bytes of chunk `c` of an artifact cut into `chunk_size`-byte pieces.
pub open spec fn chunk_bytes(data: Seq<u8>, c: ChunkInfo, chunk_size: u64) -> Seq<u8> {
    let start = c.index * chunk_size;
    data.subrange(start, start + c.size_bytes)
}

/// The store after keeping each chunk of `cs` in turn.
pub open spec fn stored_after(
    m: Map<Seq<char>, Seq<u8>>,
    cs: Seq<ChunkInfo>,
    data: Seq<u8>,
    chunk_size: u64,
) -> Map<Seq<char>, Seq<u8>>
    decreases cs.len(),
{
    if cs.len() == 0 {
        m
    } else {
        stored_after(m, cs.drop_last(), data, chunk_size).insert(
            cs.last().hash@,
            chunk_bytes(data, cs.last(), chunk_size),
        )
    }
}

/// Every chunk of `cs` lies within `data`.
pub open spec fn chunks_within(cs: Seq<ChunkInfo>, data: Seq<u8>, chunk_size: u64) -> bool {
    forall|i: int|
        0 <= i < cs.len() ==> (#[trigger] cs[i]).index * chunk_size + cs[i].size_bytes <= data.len()
}

impl LocalChunkStore {
    pub closed spec fn chunks(self) -> Map<Seq<char>, Seq<u8>> {
        keyed(self.entries@, stored_key()).map_values(|e: StoredChunk| e.data@)
    }

    pub closed spec fn wf(self) -> bool {
        keys_distinct(self.entries@, stored_key())
    }

    pub fn new() -> (r: Self)
        ensures
            r.wf(),
            r.chunks() == Map::<Seq<char>, Seq<u8>>::empty(),
    {
        let r = LocalChunkStore { entries: Vec::new() };
        proof {
            assert(r.chunks() =~= Map::<Seq<char>, Seq<u8>>::empty());
        }
        r
    }

    fn find(&self, hash: &str) -> (r: Option<usize>)
        ensures
            r matches Some(i) ==> i < self.entries@.len() && self.entries@[i as int].hash@ == hash@,
            r is None ==> !has_key(self.entries@, stored_key(), hash@),
    {
        let mut i: usize = 0;
        while i < self.entries.len()
            invariant
                i <= self.entries@.len(),
                forall|j: int| 0 <= j < i ==> (#[trigger] self.entries@[j]).hash@ != hash@,
            decreases self.entries@.len() - i,
        {
            if str_eq(self.entries[i].hash.as_str(), hash) {
                return Some(i);
            }
            i = i + 1;
        }
        proof {
            if has_key(self.entries@, stored_key(), hash@) {
                let j = choose|j: int| 0 <= j < self.entries@.len() && stored_key()(#[trigger] self.entries@[j]) == hash@;
                assert(self.entries@[j].hash@ == hash@);
            }
        }
        None
    }

    /// The bytes of the chunk with digest `hash`.
    pub fn get(&self, hash: &str) -> (r: Option<&[u8]>)
        requires
            self.wf(),
        ensures
            r is Some <==> self.chunks().contains_key(hash@),
            r matches Some(d) ==> d@ == self.chunks()[hash@],
    {
        proof {
            lemma_keyed_dom(self.entries@, stored_key(), hash@);
        }
        match self.find(hash) {
            Some(i) => {
                proof {
                    lemma_keyed_value(self.entries@, stored_key(), i as int);
                }
                Some(self.entries[i].data.as_slice())
            },
            None => None,
        }
    }

    /// Keeps `data` as the chunk with digest `hash`, replacing an earlier one.
    pub fn insert(&mut self, hash: String, data: Vec<u8>)
        requires
            old(self).wf(),
        ensures
            final(self).wf(),
            final(self).chunks() == old(self).chunks().insert(hash@, data@),
    {
        let ghost key = hash@;
        let ghost bytes = data@;
        let e = StoredChunk { hash, data };
        match self.find(e.hash.as_str()) {
            Some(i) => {
                proof {
                    lemma_keyed_update(self.entries@, stored_key(), i as int, e);
                }
                self.entries.set(i, e);
            },
            None => {
                proof {
                    lemma_keyed_push(self.entries@, stored_key(), e);
                }
                self.entries.push(e);
            },
        }
        proof {
            assert(self.chunks() =~= old(self).chunks().insert(key, bytes));
        }
    }

    /// The number of chunks held.
    pub fn len(&self) -> (r: usize)
        requires
            self.wf(),
        ensures
            r == self.chunks().len(),
    {
        proof {
            crate::keyed::lemma_keyed_len(self.entries@, stored_key());
            assert(self.chunks().dom() =~= keyed(self.entries@, stored_key()).dom());
        }
        self.entries.len()
    }

    /// Keeps every chunk of `manifest`, cut out of the artifact's bytes `data`.
    pub fn store_artifact_chunks(&mut self, manifest: &TorrentManifest, data: &[u8])
        requires
            old(self).wf(),
            chunks_within(manifest.chunks@, data@, manifest.chunk_size),
        ensures
            final(self).wf(),
            final(self).chunks() == stored_after(old(self).chunks(), manifest.chunks@, data@, manifest.chunk_size),
    {
        let cs = manifest.chunk_size;
        let dl = data.len();
        let mut i: usize = 0;
        while i < manifest.chunks.len()
            invariant
                dl == data@.len(),
                i <= manifest.chunks@.len(),
                self.wf(),
                chunks_within(manifest.chunks@, data@, cs),
                cs == manifest.chunk_size,
                self.chunks() == stored_after(old(self).chunks(), manifest.chunks@.take(i as int), data@, cs),
            decreases manifest.chunks@.len() - i,
        {
            let c = &manifest.chunks[i];
            proof {
                assert(c.index * cs + c.size_bytes <= data@.len());
                assert(0 <= c.index * cs) by (nonlinear_arith)
                    requires
                        c.index >= 0,
                        cs >= 0,
                ;
                assert((c.index as u64) as int == c.index as int);
                assert(data@.len() <= usize::MAX);
                assert((c.index as u64) * cs <= usize::MAX);
            }
            let start: usize = (c.index as u64 * cs) as usize;
            let end: usize = (start as u64 + c.size_bytes) as usize;
            let bytes = copy_range(data, start, end);
            proof {
                assert(manifest.chunks@.take(i + 1).drop_last() =~= manifest.chunks@.take(i as int));
                assert(bytes@ == chunk_bytes(data@, *c, cs));
            }
            self.insert(c.hash.clone(), bytes);
            i = i + 1;
        }
        proof {
            assert(manifest.chunks@.take(i as int) =~= manifest.chunks@);
        }
    }
}

/// `a` with `d` written over it from position `start`.
pub open spec fn splice(a: Seq<u8>, start: int, d: Seq<u8>) -> Seq<u8> {
    a.subrange(0, start) + d + a.subrange(start + d.len(), a.len() as int)
}

/// An artifact being assembled from its chunks.
pub struct DownloadState {
    pub assembled: Vec<u8>,
    pub downloaded_chunks: usize,
}

/// What the caller does after a chunk step.
#[derive(Debug)]
pub enum ChunkOutcome {
    /// Go on with the next chunk.
    Continue,
    /// The best peer delivered the chunk: raise its standing, then go on.
    RewardBestPeer,
    /// Stop: the download failed with this message.
    Failed(String),
}

fn zeros(n: usize) -> (r: Vec<u8>)
    ensures
        r@ == Seq::new(n as nat, |i: int| 0u8),
{
    let mut r: Vec<u8> = Vec::new();
    let mut k: usize = 0;
    while k < n
        invariant
            k <= n,
            r@ == Seq::new(k as nat, |i: int| 0u8),
        decreases n - k,
    {
        r.push(0u8);
        proof {
            assert(r@ =~= Seq::new((k + 1) as nat, |i: int| 0u8));
        }
        k = k + 1;
    }
    r
}

fn write_at(a: &mut Vec<u8>, start: usize, d: &[u8])
    requires
        start + d@.len() <= old(a)@.len(),
    ensures
        final(a)@ == splice(old(a)@, start as int, d@),
{
    let n = a.len();
    let mut k: usize = 0;
    while k < d.len()
        invariant
            k <= d@.len(),
            n == a@.len(),
            start + d@.len() <= old(a)@.len(),
            a@.len() == old(a)@.len(),
            forall|j: int| 0 <= j < start ==> a@[j] == old(a)@[j],
            forall|j: int| start <= j < start + k ==> a@[j] == d@[j - start],
            forall|j: int| start + k <= j < a@.len() ==> a@[j] == old(a)@[j],
        decreases d@.len() - k,
    {
        a.set(start + k, d[k]);
        k = k + 1;
    }
    proof {
        assert(a@ =~= splice(old(a)@, start as int, d@));
    }
}

/// A download of `total_size` bytes, none of its chunks placed yet.
pub fn begin_download(total_size: u64) -> (r: DownloadState)
    requires
        total_size <= usize::MAX,
    ensures
        r.assembled@ == Seq::new(total_size as nat, |i: int| 0u8),
        r.downloaded_chunks == 0,
{
    DownloadState { assembled: zeros(total_size as usize), downloaded_chunks: 0 }
}

/// Places one chunk, taken rarest first, of an artifact cut into `chunk_size`-byte
/// pieces; `has_peers` tells whether some peer holds it. Without holders the chunk comes
/// from the local store, or the download fails (counted) with `no peers have chunk`.
/// With holders the local copy is placed when it fits, counted as a download from the
/// best peer; when there is no local copy the chunk's span (cut at the end of the
/// artifact) is zero-filled.
pub fn download_chunk(
    state: &mut DownloadState,
    chunk_size: u64,
    chunk: &ChunkInfo,
    has_peers: bool,
    store: &LocalChunkStore,
    stats: &mut DownloadStats,
) -> (r: ChunkOutcome)
    requires
        store.wf(),
        chunk.index * chunk_size <= usize::MAX,
        old(state).downloaded_chunks < usize::MAX,
        !has_peers && store.chunks().contains_key(chunk.hash@) ==> chunk.index * chunk_size
            + store.chunks()[chunk.hash@].len() <= old(state).assembled@.len(),
        !has_peers && !store.chunks().contains_key(chunk.hash@) ==> old(stats).failed_downloads < u64::MAX,
        has_peers && store.chunks().contains_key(chunk.hash@) ==> {
            &&& old(stats).total_bytes_downloaded + store.chunks()[chunk.hash@].len() <= u64::MAX
            &&& old(stats).chunks_downloaded < u64::MAX
            &&& old(stats).peers_contacted < u64::MAX
        },
        has_peers && !store.chunks().contains_key(chunk.hash@) ==> chunk.index * chunk_size
            <= old(state).assembled@.len() && chunk.index * chunk_size + chunk.size_bytes <= u64::MAX,
    ensures
        ({
            let start = chunk.index * chunk_size;
            let a = old(state).assembled@;
            let placed = DownloadState {
                assembled: final(state).assembled,
                downloaded_chunks: (old(state).downloaded_chunks + 1) as usize,
            };
            if !has_peers {
                if store.chunks().contains_key(chunk.hash@) {
                    &&& r is Continue
                    &&& final(state).assembled@ == splice(a, start, store.chunks()[chunk.hash@])
                    &&& final(state).downloaded_chunks == old(state).downloaded_chunks + 1
                    &&& *final(stats) == *old(stats)
                } else {
                    &&& r matches ChunkOutcome::Failed(m) && m@ == "no peers have chunk "@ + chunk.hash@
                    &&& final(state).assembled@ == a
                    &&& final(state).downloaded_chunks == old(state).downloaded_chunks
                    &&& *final(stats) == (DownloadStats {
                        failed_downloads: (old(stats).failed_downloads + 1) as u64,
                        ..*old(stats)
                    })
                }
            } else if store.chunks().contains_key(chunk.hash@) {
                let d = store.chunks()[chunk.hash@];
                if start + d.len() <= a.len() {
                    &&& r is RewardBestPeer
                    &&& final(state).assembled@ == splice(a, start, d)
                    &&& final(state).downloaded_chunks == old(state).downloaded_chunks + 1
                    &&& *final(stats) == (DownloadStats {
                        total_bytes_downloaded: (old(stats).total_bytes_downloaded + d.len()) as u64,
                        chunks_downloaded: (old(stats).chunks_downloaded + 1) as u64,
                        peers_contacted: (old(stats).peers_contacted + 1) as u64,
                        ..*old(stats)
                    })
                } else {
                    &&& r is Continue
                    &&& final(state).assembled@ == a
                    &&& final(state).downloaded_chunks == old(state).downloaded_chunks
                    &&& *final(stats) == *old(stats)
                }
            } else {
                let k = if chunk.size_bytes <= a.len() - start { chunk.size_bytes as int } else { a.len() - start };
                &&& r is Continue
                &&& final(state).assembled@ == splice(a, start, Seq::new(k as nat, |i: int| 0u8))
                &&& final(state).downloaded_chunks == old(state).downloaded_chunks + 1
                &&& *final(stats) == *old(stats)
            }
        }),
{
    proof {
        assert(0 <= chunk.index * chunk_size) by (nonlinear_arith)
            requires
                chunk.index >= 0,
                chunk_size >= 0,
        ;
        assert((chunk.index as u64) as int == chunk.index as int);
    }
    let start: usize = (chunk.index as u64 * chunk_size) as usize;
    let local = store.get(chunk.hash.as_str());
    if !has_peers {
        match local {
            Some(d) => {
                write_at(&mut state.assembled, start, d);
                state.downloaded_chunks = state.downloaded_chunks + 1;
                return ChunkOutcome::Continue;
            },
            None => {
                stats.failed_downloads = stats.failed_downloads + 1;
                let mut m = "no peers have chunk ".to_string();
                m.append(chunk.hash.as_str());
                return ChunkOutcome::Failed(m);
            },
        }
    }
    match local {
        Some(d) => {
            let len = state.assembled.len();
            if d.len() <= len && start <= len - d.len() {
                write_at(&mut state.assembled, start, d);
                state.downloaded_chunks = state.downloaded_chunks + 1;
                stats.total_bytes_downloaded = stats.total_bytes_downloaded + d.len() as u64;
                stats.chunks_downloaded = stats.chunks_downloaded + 1;
                stats.peers_contacted = stats.peers_contacted + 1;
                ChunkOutcome::RewardBestPeer
            } else {
                ChunkOutcome::Continue
            }
        },
        None => {
            let room = state.assembled.len() - start;
            let k: usize = if chunk.size_bytes <= room as u64 { chunk.size_bytes as usize } else { room };
            let z = zeros(k);
            write_at(&mut state.assembled, start, z.as_slice());
            state.downloaded_chunks = state.downloaded_chunks + 1;
            ChunkOutcome::Continue
        },
    }
}

/// The assembled artifact when every one of the `chunk_count` chunks was placed, else
/// `incomplete download: placed/count chunks`.
pub fn finish_download(state: DownloadState, chunk_count: usize) -> (r: Result<Vec<u8>, String>)
    ensures
        state.downloaded_chunks == chunk_count ==> r == Ok::<Vec<u8>, String>(state.assembled),
        state.downloaded_chunks != chunk_count ==> (r matches Err(m) && m@ == "incomplete download: "@ + decimal(
            state.downloaded_chunks as nat,
        ) + "/"@ + decimal(chunk_count as nat) + " chunks"@),
{
    if state.downloaded_chunks != chunk_count {
        let mut m = "incomplete download: ".to_string();
        let a = decimal_string(state.downloaded_chunks as u128);
        m.append(a.as_str());
        m.append("/");
        let b = decimal_string(chunk_count as u128);
        m.append(b.as_str());
        m.append(" chunks");
        return Err(m);
    }
    Ok(state.assembled)
}

/// The chunks of an artifact of `n` bytes tile it: the first starts at byte 0, each
/// starts where the previous one ends, the last ends at byte `n`, and an empty artifact
/// has no chunk.
pub proof fn law_chunks_tile_artifact(n: int, chunk_size: int)
    requires
        n >= 0,
        chunk_size > 0,
    ensures
        n == 0 ==> chunk_total(n, chunk_size) == 0,
        n > 0 ==> chunk_total(n, chunk_size) > 0 && chunk_start(0, chunk_size) == 0 && chunk_end(
            chunk_total(n, chunk_size) - 1,
            chunk_size,
            n,
        ) == n,
        forall|i: int|
            0 <= i < chunk_total(n, chunk_size) - 1 ==> #[trigger] chunk_end(i, chunk_size, n) == chunk_start(
                i + 1,
                chunk_size,
            ),
{
    let q = chunk_total(n, chunk_size);
    lemma_chunk_total_bound(n, chunk_size);
    if n == 0 {
        assert((chunk_size - 1) / chunk_size == 0) by (nonlinear_arith)
            requires
                chunk_size > 0,
        ;
    } else {
        assert(q * chunk_size >= n) by (nonlinear_arith)
            requires
                q == (n + chunk_size - 1) / chunk_size,
                chunk_size > 0,
                n > 0,
        ;
        assert(q > 0) by (nonlinear_arith)
            requires
                q * chunk_size >= n,
                n > 0,
                chunk_size > 0,
                q >= 0,
        ;
        assert(0 * chunk_size == 0);
    }
    assert forall|i: int| 0 <= i < q - 1 implies #[trigger] chunk_end(i, chunk_size, n) == chunk_start(
        i + 1,
        chunk_size,
    ) by {
        lemma_chunk_bounds(i + 1, chunk_size, n);
    }
}

/// A chunk placed by `download_chunk` reads back from the assembled bytes at its offset,
/// and the bytes around it are kept.
pub proof fn law_placed_chunk_reads_back(a: Seq<u8>, start: int, d: Seq<u8>)
    requires
        0 <= start,
        start + d.len() <= a.len(),
    ensures
        splice(a, start, d).len() == a.len(),
        splice(a, start, d).subrange(start, start + d.len()) == d,
        forall|i: int| 0 <= i < a.len() && !(start <= i < start + d.len()) ==> #[trigger] splice(a, start, d)[i] == a[i],
{
    assert(splice(a, start, d).subrange(start, start + d.len()) =~= d);
}

/// The bytes after placing the chunks at positions `order` of `chunks`, one after the
/// other, each with the bytes that `store` holds under its digest.
pub open spec fn placed(
    a: Seq<u8>,
    chunks: Seq<ChunkInfo>,
    order: Seq<int>,
    store: Map<Seq<char>, Seq<u8>>,
    chunk_size: int,
) -> Seq<u8>
    decreases order.len(),
{
    if order.len() == 0 {
        a
    } else {
        let c = chunks[order.last()];
        splice(placed(a, chunks, order.drop_last(), store, chunk_size), c.index * chunk_size, store[c.hash@])
    }
}

/// Byte `x` lies in a chunk placed by `order`.
pub open spec fn covered(order: Seq<int>, x: int, chunk_size: int, n: int) -> bool {
    exists|k: int|
        0 <= k < order.len() && chunk_start(#[trigger] order[k], chunk_size) <= x < chunk_end(order[k], chunk_size, n)
}

proof fn lemma_placed(
    data: Seq<u8>,
    chunks: Seq<ChunkInfo>,
    order: Seq<int>,
    store: Map<Seq<char>, Seq<u8>>,
    chunk_size: int,
)
    requires
        chunk_size > 0,
        chunks.len() == chunk_total(data.len() as int, chunk_size),
        forall|i: int| 0 <= i < chunks.len() ==> is_chunk_of(#[trigger] chunks[i], data, chunk_size, i),
        forall|i: int|
            0 <= i < chunks.len() ==> store.contains_key((#[trigger] chunks[i]).hash@) && store[chunks[i].hash@]
                == data.subrange(chunk_start(i, chunk_size), chunk_end(i, chunk_size, data.len() as int)),
        forall|k: int| 0 <= k < order.len() ==> 0 <= #[trigger] order[k] < chunks.len(),
    ensures
        ({
            let p = placed(Seq::new(data.len(), |i: int| 0u8), chunks, order, store, chunk_size);
            &&& p.len() == data.len()
            &&& forall|x: int|
                0 <= x < data.len() ==> #[trigger] p[x] == if covered(order, x, chunk_size, data.len() as int) {
                    data[x]
                } else {
                    0u8
                }
        }),
    decreases order.len(),
{
    let n = data.len() as int;
    if order.len() > 0 {
        let prev = order.drop_last();
        lemma_placed(data, chunks, prev, store, chunk_size);
        let i = order.last();
        let c = chunks[i];
        lemma_chunk_bounds(i, chunk_size, n);
        let start = chunk_start(i, chunk_size);
        let end = chunk_end(i, chunk_size, n);
        let q = placed(Seq::new(data.len(), |j: int| 0u8), chunks, prev, store, chunk_size);
        let d = store[c.hash@];
        assert(c.index == i);
        assert(d == data.subrange(start, end));
        law_placed_chunk_reads_back(q, start, d);
        let p = placed(Seq::new(data.len(), |j: int| 0u8), chunks, order, store, chunk_size);
        assert(p == splice(q, start, d));
        assert forall|x: int| 0 <= x < n implies #[trigger] p[x] == if covered(order, x, chunk_size, n) {
            data[x]
        } else {
            0u8
        } by {
            if start <= x < end {
                assert(p[x] == splice(q, start, d).subrange(start, start + d.len())[x - start]);
                assert(order[order.len() - 1] == i);
                assert(covered(order, x, chunk_size, n));
            } else {
                assert(p[x] == q[x]);
                if covered(order, x, chunk_size, n) {
                    let k = choose|k: int|
                        0 <= k < order.len() && chunk_start(#[trigger] order[k], chunk_size) <= x < chunk_end(
                            order[k],
                            chunk_size,
                            n,
                        );
                    assert(k < order.len() - 1);
                    assert(prev[k] == order[k]);
                    assert(covered(prev, x, chunk_size, n));
                } else {
                    if covered(prev, x, chunk_size, n) {
                        let k = choose|k: int|
                            0 <= k < prev.len() && chunk_start(#[trigger] prev[k], chunk_size) <= x < chunk_end(
                                prev[k],
                                chunk_size,
                                n,
                            );
                        assert(order[k] == prev[k]);
                    }
                }
            }
        }
    }
}

/// An artifact downloaded chunk by chunk from a store that holds every chunk's bytes under
/// its digest is the artifact again, whatever the order of the chunks, as long as each
/// chunk is placed.
pub proof fn law_download_reassembles_artifact(
    data: Seq<u8>,
    chunks: Seq<ChunkInfo>,
    order: Seq<int>,
    store: Map<Seq<char>, Seq<u8>>,
    chunk_size: int,
)
    requires
        chunk_size > 0,
        chunks.len() == chunk_total(data.len() as int, chunk_size),
        forall|i: int| 0 <= i < chunks.len() ==> is_chunk_of(#[trigger] chunks[i], data, chunk_size, i),
        forall|i: int|
            0 <= i < chunks.len() ==> store.contains_key((#[trigger] chunks[i]).hash@) && store[chunks[i].hash@]
                == data.subrange(chunk_start(i, chunk_size), chunk_end(i, chunk_size, data.len() as int)),
        forall|k: int| 0 <= k < order.len() ==> 0 <= #[trigger] order[k] < chunks.len(),
        forall|i: int|
            #![trigger chunks[i]]
            0 <= i < chunks.len() ==> exists|k: int| 0 <= k < order.len() && #[trigger] order[k] == i,
    ensures
        placed(Seq::new(data.len(), |i: int| 0u8), chunks, order, store, chunk_size) == data,
{
    let n = data.len() as int;
    lemma_placed(data, chunks, order, store, chunk_size);
    let p = placed(Seq::new(data.len(), |i: int| 0u8), chunks, order, store, chunk_size);
    assert forall|x: int| 0 <= x < n implies covered(order, x, chunk_size, n) by {
        let i = x / chunk_size;
        assert(i * chunk_size <= x < (i + 1) * chunk_size) by (nonlinear_arith)
            requires
                i == x / chunk_size,
                chunk_size > 0,
                x >= 0,
        ;
        assert(0 <= i < chunk_total(n, chunk_size)) by (nonlinear_arith)
            requires
                i == x / chunk_size,
                chunk_size > 0,
                0 <= x < n,
                chunk_total(n, chunk_size) == (n + chunk_size - 1) / chunk_size,
        {
            assert(x + chunk_size - 1 <= n + chunk_size - 1);
            assert(x / chunk_size <= (n - 1) / chunk_size);
            assert((n - 1) / chunk_size < (n + chunk_size - 1) / chunk_size) by {
                assert((n + chunk_size - 1) / chunk_size == (n - 1) / chunk_size + 1);
            }
        }
        let c = chunks[i];
        let k = choose|k: int| 0 <= k < order.len() && #[trigger] order[k] == i;
        assert(order[k] == i);
        assert(chunk_start(order[k], chunk_size) <= x < chunk_end(order[k], chunk_size, n));
    }
    assert(p =~= data);
}

} // verus!
