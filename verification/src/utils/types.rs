//! Types shared by indexing and search.

use crate::score::Score;
use crate::text;
use vstd::prelude::*;

verus! {

/// Represents a passage/document ID in the index
pub type PassageId = i64;

/// Represents a centroid ID in the clustering
pub type CentroidId = i64;

/// Represents an embedding ID in the index
pub type EmbeddingId = i64;

/// Query ID type
pub type QueryId = i64;

/// A device that tensors live on.
#[derive(Debug, Clone, Copy, PartialEq, Eq, Structural)]
pub enum Device {
    Cpu,
    Cuda(usize),
    Mps,
    Vulkan,
}

impl Device {
    pub fn is_cuda(&self) -> (r: bool)
        ensures
            r == (*self is Cuda),
    {
        matches!(*self, Device::Cuda(_))
    }
}

/// The element type of a tensor.
#[derive(Debug, Clone, Copy, PartialEq, Eq, Structural)]
pub enum Kind {
    Uint8,
    Int8,
    Int16,
    Int,
    Int64,
    Half,
    Float,
    Double,
    ComplexHalf,
    ComplexFloat,
    ComplexDouble,
    Bool,
    QInt8,
    QUInt8,
    QInt32,
    BFloat16,
    Float8e5m2,
    Float8e4m3fn,
    Float8e5m2fnuz,
    Float8e4m3fnuz,
}

/// Configuration for the WARP index
#[derive(Debug)]
pub struct IndexConfig {
    /// Path to the index directory
    pub index_path: String,
    /// Device to use (e.g. "cpu", "cuda:0")
    pub device: Device,
    /// Number of bits for residual compression (2 or 4)
    pub nbits: u8,
    /// Embedding dimension
    pub embedding_dim: u32,
}

impl Default for IndexConfig {
    fn default() -> (r: Self)
        ensures
            r.index_path@ == "./index"@,
            r.device == Device::Cpu,
            r.nbits == 4,
            r.embedding_dim == 128,
    {
        IndexConfig {
            index_path: "./index".to_owned(),
            device: Device::Cpu,
            nbits: 4,
            embedding_dim: 128,
        }
    }
}

/// Search configuration parameters
pub struct SearchConfig<S> {
    /// Number of top results to return
    pub k: usize,
    /// Device to use for the search
    pub device: String,
    /// Dtype to use for the search
    pub dtype: String,
    /// Number of centroids to probe during search
    pub nprobe: u32,
    /// Optional adaptive threshold (t')
    pub t_prime: Option<usize>,
    /// Maximum number of centroids to inspect per token
    pub bound: usize,
    /// The batch size for centroid matmul
    pub batch_size: i64,
    /// Optional number of threads for parallel search
    pub num_threads: Option<usize>,
    /// Threshold for centroid scores
    pub centroid_score_threshold: Option<S>,
    /// Maximum codes per centroid
    pub max_codes_per_centroid: Option<u32>,
    /// The number of candidates to consider before the sorting
    pub max_candidates: Option<usize>,
}

impl<S: Score> SearchConfig<S> {
    /// A configuration with the documented defaults for what is not given.
    pub fn new(
        k: usize,
        device: String,
        dtype: Option<String>,
        nprobe: Option<u32>,
        t_prime: Option<usize>,
        bound: Option<usize>,
        batch_size: Option<i64>,
        num_threads: Option<usize>,
        centroid_score_threshold: Option<S>,
        max_codes_per_centroid: Option<u32>,
        max_candidates: Option<usize>,
    ) -> (r: Self)
        ensures
            r.k == k,
            r.device == device,
            dtype matches Some(d) ==> r.dtype == d,
            dtype is None ==> r.dtype@ == "float32"@,
            r.nprobe == (if nprobe is Some {
                nprobe->Some_0
            } else {
                4
            }),
            r.t_prime == t_prime,
            r.bound == (if bound is Some {
                bound->Some_0
            } else {
                128
            }),
            r.batch_size == (if batch_size is Some {
                batch_size->Some_0
            } else {
                8192
            }),
            r.num_threads == num_threads,
            r.centroid_score_threshold == centroid_score_threshold,
            r.max_codes_per_centroid == max_codes_per_centroid,
            r.max_candidates == max_candidates,
    {
        SearchConfig {
            k,
            device,
            dtype: match dtype {
                Some(d) => d,
                None => "float32".to_owned(),
            },
            nprobe: match nprobe {
                Some(n) => n,
                None => 4,
            },
            t_prime,
            bound: match bound {
                Some(b) => b,
                None => 128,
            },
            batch_size: match batch_size {
                Some(b) => b,
                None => 8192,
            },
            num_threads,
            centroid_score_threshold,
            max_codes_per_centroid,
            max_candidates,
        }
    }
}

impl<S: Score> Default for SearchConfig<S> {
    fn default() -> (r: Self)
        ensures
            r.k == 100,
            r.device@ == "cpu"@,
            r.dtype@ == "float32"@,
            r.nprobe == 4,
            r.t_prime is None,
            r.bound == 128,
            r.batch_size == 8192,
            r.num_threads == Some(1usize),
            r.centroid_score_threshold is None,
            r.max_codes_per_centroid is None,
            r.max_candidates is None,
    {
        SearchConfig::new(
            100,
            "cpu".to_owned(),
            None,
            None,
            None,
            None,
            None,
            Some(1usize),
            None,
            None,
            None,
        )
    }
}

/// Represents a ranked search result
pub struct SearchResult<S> {
    pub passage_ids: Vec<PassageId>,
    pub scores: Vec<S>,
    pub query_id: usize,
}

/// Configuration for a single shard within a sharded index.
#[derive(Debug, Clone, Copy, PartialEq, Eq, Structural)]
pub struct ShardConfig {
    /// This shard's index (0..num_shards-1)
    pub shard_id: usize,
    /// Total number of shards
    pub num_shards: usize,
    /// First centroid ID owned by this shard (inclusive)
    pub centroid_start: usize,
    /// Last centroid ID owned by this shard (exclusive)
    pub centroid_end: usize,
}

impl ShardConfig {
    /// Whether the shard holds the centroid.
    pub open spec fn owns(self, centroid: int) -> bool {
        self.centroid_start <= centroid < self.centroid_end
    }
}

/// An average length of documents.
#[derive(Debug, Clone, Copy, PartialEq, Eq, Structural)]
pub enum AvgDoclen {
    /// A stored number, by the bits of its IEEE 754 double
    Stored(u64),
    /// The quotient of two counts
    Quotient { embeddings: i64, passages: usize },
    /// Zero, for no documents
    Zero,
}

/// The number of bits, where it is in 0..=255.
pub fn nbits_from(nbits: i64) -> (r: Option<u8>)
    ensures
        r == (if 0 <= nbits <= 255 {
            Some(nbits as u8)
        } else {
            None
        }),
{
    if 0 <= nbits && nbits <= 255 {
        Some(nbits as u8)
    } else {
        None
    }
}

/// Represents the plan outlined to create an index
#[derive(Debug, Clone, Copy, PartialEq, Eq, Structural)]
pub struct IndexPlan {
    pub n_docs: usize,
    pub num_chunks: usize,
    pub avg_doc_len: AvgDoclen,
    pub est_total_embs: i64,
    pub nbits: u8,
}

/// The contents of `metadata.json`.
#[derive(Debug)]
pub struct IndexMetadata {
    pub num_chunks: usize,
    pub nbits: u8,
    pub num_partitions: i64,
    pub num_embeddings: i64,
    pub avg_doclen: AvgDoclen,
    pub num_passages: usize,
    /// Watermark for the next passage ID to assign.
    pub next_passage_id: i64,
    pub num_centroids: usize,
    pub dim: usize,
    pub created_at: String,
    /// Number of shards (absent or 1 for single-shard indices).
    pub num_shards: Option<usize>,
    /// Centroid boundaries per shard: [0, b1, b2, ..., num_centroids].
    /// Length is num_shards + 1.
    pub shard_boundaries: Option<Vec<usize>>,
}

impl IndexMetadata {
    /// The same contents.
    pub open spec fn same_as(self, other: IndexMetadata) -> bool {
        &&& self.num_chunks == other.num_chunks
        &&& self.nbits == other.nbits
        &&& self.num_partitions == other.num_partitions
        &&& self.num_embeddings == other.num_embeddings
        &&& self.avg_doclen == other.avg_doclen
        &&& self.num_passages == other.num_passages
        &&& self.next_passage_id == other.next_passage_id
        &&& self.num_centroids == other.num_centroids
        &&& self.dim == other.dim
        &&& self.created_at@ == other.created_at@
        &&& self.num_shards == other.num_shards
        &&& same_boundaries(self.shard_boundaries, other.shard_boundaries)
    }

    /// The boundaries, where there are any, are those of the shards: one more
    /// than there are shards, in order, from the first centroid to the last.
    pub open spec fn shards_wf(self) -> bool {
        self.shard_boundaries matches Some(b) ==> (self.num_shards matches Some(n) && b@.len() == n
            + 1 && covers(b@, self.num_centroids as int))
    }

    /// A copy.
    pub fn duplicate(&self) -> (r: Self)
        ensures
            r.same_as(*self),
            r.num_chunks == self.num_chunks,
            r.nbits == self.nbits,
            r.num_partitions == self.num_partitions,
            r.num_embeddings == self.num_embeddings,
            r.avg_doclen == self.avg_doclen,
            r.num_passages == self.num_passages,
            r.next_passage_id == self.next_passage_id,
            r.num_centroids == self.num_centroids,
            r.dim == self.dim,
            r.created_at@ == self.created_at@,
            r.num_shards == self.num_shards,
            r.shard_boundaries is Some <==> self.shard_boundaries is Some,
            self.shard_boundaries is Some ==> r.shard_boundaries->Some_0@
                == self.shard_boundaries->Some_0@,
    {
        IndexMetadata {
            num_chunks: self.num_chunks,
            nbits: self.nbits,
            num_partitions: self.num_partitions,
            num_embeddings: self.num_embeddings,
            avg_doclen: self.avg_doclen,
            num_passages: self.num_passages,
            next_passage_id: self.next_passage_id,
            num_centroids: self.num_centroids,
            dim: self.dim,
            created_at: self.created_at.clone(),
            num_shards: self.num_shards,
            shard_boundaries: copy_boundaries(&self.shard_boundaries),
        }
    }
}

/// The same boundaries, or none on either side.
pub open spec fn same_boundaries(a: Option<Vec<usize>>, b: Option<Vec<usize>>) -> bool {
    match (a, b) {
        (Some(x), Some(y)) => x@ == y@,
        (None, None) => true,
        _ => false,
    }
}

/// A copy of the boundaries.
pub fn copy_boundaries(boundaries: &Option<Vec<usize>>) -> (r: Option<Vec<usize>>)
    ensures
        same_boundaries(r, *boundaries),
        r is Some <==> boundaries is Some,
        boundaries is Some ==> r->Some_0@ == boundaries->Some_0@,
{
    match boundaries {
        Some(b) => {
            let mut copy: Vec<usize> = Vec::new();
            let mut i: usize = 0;
            while i < b.len()
                invariant
                    i <= b@.len(),
                    copy@ == b@.take(i as int),
                decreases b@.len() - i,
            {
                copy.push(b[i]);
                i += 1;
                assert(copy@ =~= b@.take(i as int));
            }
            assert(copy@ =~= b@);
            Some(copy)
        },
        None => None,
    }
}

/// Components of a loaded index, `T` being the tensors that are only handed on.
pub struct LoadedIndex<T> {
    /// Centroids tensor [num_centroids, dim]
    pub centroids: T,
    /// Bucket weights for scoring
    pub bucket_weights: T,
    /// Compacted sizes per centroid
    pub sizes_compacted: Vec<i64>,
    /// Per-embedding passage IDs in compacted (centroid-sorted) layout
    pub pids_compacted: T,
    /// Compacted residuals (compressed)
    pub residuals_compacted: T,
    /// Offsets for each centroid in the compacted arrays
    pub offsets_compacted: Vec<i64>,
    /// Index of the dummy centroid (smallest)
    pub kdummy_centroid: CentroidId,
    /// Metadata about the index
    pub metadata: IndexMetadata,
    /// Shard configuration, if this index is one shard of a sharded index.
    pub shard_config: Option<ShardConfig>,
    /// Whether the passage IDs and the residuals are memory-mapped.
    pub mapped: bool,
}

/// A sharded index: one loaded index per shard.
pub struct ShardedIndex<T> {
    pub shards: Vec<LoadedIndex<T>>,
    pub shard_configs: Vec<ShardConfig>,
    pub metadata: IndexMetadata,
}

/// Decompressed centroid data
pub struct DecompressedCentroid<S> {
    pub centroid_id: CentroidId,
    pub passage_ids: Vec<PassageId>,
    pub scores: Vec<S>,
}

/// The candidates of all probed cells, one cell after the other.
pub struct DecompressedCentroidsOutput<S> {
    /// Total capacity of each centroid (ends - begins)
    pub capacities: Vec<i64>,
    /// Actual sizes after deduplication
    pub sizes: Vec<i32>,
    pub passage_ids: Vec<PassageId>,
    pub scores: Vec<S>,
    pub offsets: Vec<i64>,
}

/// Candidate for final ranking
pub struct RankingCandidate<S> {
    pub passage_id: PassageId,
    pub score: S,
    pub centroid_id: CentroidId,
}

/// T-prime policy for adaptive early termination
#[derive(Debug, Clone, Copy, PartialEq, Eq, Structural)]
pub enum TPrimePolicy {
    Fixed(usize),
    Max,
}

impl TPrimePolicy {
    pub fn value(&self, k: usize) -> (r: usize)
        ensures
            r == (match *self {
                TPrimePolicy::Fixed(value) => value,
                TPrimePolicy::Max => if k > 100 {
                    100_000
                } else {
                    50_000
                },
            }),
    {
        match *self {
            TPrimePolicy::Fixed(value) => value,
            TPrimePolicy::Max => {
                if k > 100 {
                    100_000
                } else {
                    50_000
                }
            },
        }
    }
}

/// Stats from index compaction
#[derive(Debug, Clone, Copy, PartialEq, Eq, Structural)]
pub struct CompactStats {
    pub total_embeddings: i64,
    pub num_active_passages: usize,
}

/// Result from adding documents to an index
pub struct AddResult<S> {
    pub new_passage_ids: Vec<i64>,
    /// Per-embedding residual norms (for centroid expansion outlier detection).
    pub residual_norms: Vec<S>,
    /// Embedding dimension.
    pub embedding_dim: usize,
}

/// Per-shard decompression output, tagged with global cell indices so the
/// coordinator can reassemble them into a single DecompressedCentroidsOutput.
pub struct ShardCellOutput<S> {
    /// Positions of this shard's cells in the global cell list (0..num_tokens*nprobe).
    pub global_cell_indices: Vec<usize>,
    /// Per-cell passage IDs (concatenated).
    pub passage_ids: Vec<PassageId>,
    /// Per-cell scores (concatenated, same length as passage_ids).
    pub scores: Vec<S>,
    /// Per-cell capacities (total range, before dedup).
    pub capacities: Vec<i64>,
    /// Per-cell sizes (after dedup).
    pub sizes: Vec<i32>,
}

/// The number of embeddings in the centroids from `lo` to `hi`.
pub open spec fn range_sum(sizes: Seq<i64>, lo: int, hi: int) -> int
    decreases hi - lo,
{
    if hi <= lo {
        0
    } else {
        range_sum(sizes, lo, hi - 1) + sizes[hi - 1]
    }
}

/// The sum of a range is that of its members, from the first to the last.
pub proof fn range_sum_adds_up(sizes: Seq<i64>, lo: int, hi: int)
    requires
        0 <= lo <= hi <= sizes.len(),
    ensures
        range_sum(sizes, lo, hi) == sizes.subrange(lo, hi).fold_left(
            0int,
            |sum: int, size: i64| sum + size,
        ),
    decreases hi - lo,
{
    if lo < hi {
        range_sum_adds_up(sizes, lo, hi - 1);
        assert(sizes.subrange(lo, hi).drop_last() =~= sizes.subrange(lo, hi - 1));
    }
}

/// A shard that starts at centroid `start` may end at `end`: it then holds at
/// least its part of all embeddings.
pub open spec fn is_cut(sizes: Seq<i64>, num_shards: int, start: int, end: int) -> bool {
    start < end <= sizes.len() && range_sum(sizes, start, end) * num_shards >= range_sum(
        sizes,
        0,
        sizes.len() as int,
    )
}

/// `end` is the first place where a shard that starts at `start` may end, or
/// the last centroid where there is none.
pub open spec fn ends_shard(sizes: Seq<i64>, num_shards: int, start: int, end: int) -> bool {
    &&& start <= end <= sizes.len()
    &&& end < sizes.len() ==> is_cut(sizes, num_shards, start, end)
    &&& forall|e: int| start < e < end ==> !#[trigger] is_cut(sizes, num_shards, start, e)
}

/// Boundaries that give every shard about the same number of embeddings: one
/// centroid per shard where there are no more centroids than shards, else each
/// shard ends as soon as it holds its part, and the last takes the rest.
pub open spec fn is_balanced(sizes: Seq<i64>, num_shards: int, boundaries: Seq<usize>) -> bool {
    let n = sizes.len() as int;
    &&& boundaries.len() == num_shards + 1
    &&& if num_shards >= n {
        forall|i: int|
            0 <= i <= num_shards ==> #[trigger] boundaries[i] == if i < n {
                i
            } else {
                n
            }
    } else {
        &&& boundaries[0] == 0
        &&& boundaries[num_shards] == n
        &&& forall|i: int|
            0 < i < num_shards ==> ends_shard(
                sizes,
                num_shards,
                boundaries[i - 1] as int,
                #[trigger] boundaries[i] as int,
            )
    }
}

/// The shards' boundaries go from the first centroid to the last, in order.
pub open spec fn covers(boundaries: Seq<usize>, num_centroids: int) -> bool {
    &&& boundaries.len() >= 2
    &&& boundaries[0] == 0
    &&& boundaries[boundaries.len() - 1] == num_centroids
    &&& forall|i: int, j: int|
        0 <= i <= j < boundaries.len() ==> #[trigger] boundaries[i] <= #[trigger] boundaries[j]
}

/// Whether the boundaries go from the first centroid to the last, in order.
pub fn boundaries_cover(boundaries: &Vec<usize>, num_centroids: usize) -> (r: bool)
    ensures
        r == covers(boundaries@, num_centroids as int),
{
    let n: usize = boundaries.len();
    if n < 2 || boundaries[0] != 0 || boundaries[n - 1] != num_centroids {
        return false;
    }
    let mut i: usize = 1;
    while i < n
        invariant
            1 <= i <= n,
            n == boundaries@.len(),
            forall|a: int, b: int|
                0 <= a <= b < i ==> #[trigger] boundaries@[a] <= #[trigger] boundaries@[b],
        decreases n - i,
    {
        if boundaries[i] < boundaries[i - 1] {
            assert(!(boundaries@[i - 1] <= boundaries@[i as int]));
            return false;
        }
        i += 1;
    }
    true
}

proof fn balanced_step(sizes: Seq<i64>, num_shards: int, boundaries: Seq<usize>, i: int, j: int)
    requires
        0 < num_shards,
        is_balanced(sizes, num_shards, boundaries),
        0 <= i <= j <= num_shards,
    ensures
        boundaries[i] <= boundaries[j] <= sizes.len(),
    decreases j - i,
{
    if num_shards < sizes.len() {
        if i < j {
            balanced_step(sizes, num_shards, boundaries, i, j - 1);
            if j < num_shards {
                assert(ends_shard(
                    sizes,
                    num_shards,
                    boundaries[j - 1] as int,
                    boundaries[j] as int,
                ));
            }
        } else if 0 < i < num_shards {
            assert(ends_shard(sizes, num_shards, boundaries[i - 1] as int, boundaries[i] as int));
        }
    }
}

/// Balanced boundaries cover all centroids.
pub proof fn balanced_boundaries_cover(sizes: Seq<i64>, num_shards: int, boundaries: Seq<usize>)
    requires
        0 < num_shards,
        is_balanced(sizes, num_shards, boundaries),
    ensures
        covers(boundaries, sizes.len() as int),
{
    assert forall|i: int, j: int| 0 <= i <= j < boundaries.len() implies #[trigger] boundaries[i]
        <= #[trigger] boundaries[j] by {
        balanced_step(sizes, num_shards, boundaries, i, j);
    }
}

/// Where there are fewer shards than centroids, every shard but the last either
/// holds its part of all embeddings, and would hold less without its last
/// centroid, or it reaches the last centroid.
pub proof fn balanced_shards_hold_their_part(
    sizes: Seq<i64>,
    num_shards: int,
    boundaries: Seq<usize>,
    s: int,
)
    requires
        0 < num_shards < sizes.len(),
        is_balanced(sizes, num_shards, boundaries),
        0 <= s < num_shards - 1,
    ensures
        ({
            let (start, end) = (boundaries[s] as int, boundaries[s + 1] as int);
            let total = range_sum(sizes, 0, sizes.len() as int);
            &&& end == sizes.len() || range_sum(sizes, start, end) * num_shards >= total
            &&& start + 1 < end ==> range_sum(sizes, start, end - 1) * num_shards < total
        }),
{
    let (start, end) = (boundaries[s] as int, boundaries[s + 1] as int);
    assert(ends_shard(sizes, num_shards, start, end));
    if start + 1 < end {
        assert(!is_cut(sizes, num_shards, start, end - 1));
    }
}

/// Where there are no fewer shards than centroids, each of the first shards holds one
/// centroid, in order, and the others hold none.
pub proof fn spare_shards_are_empty(
    sizes: Seq<i64>,
    num_shards: int,
    boundaries: Seq<usize>,
    s: int,
)
    requires
        sizes.len() <= num_shards,
        is_balanced(sizes, num_shards, boundaries),
        0 <= s < num_shards,
    ensures
        boundaries.len() == num_shards + 1,
        s < sizes.len() ==> boundaries[s] == s && boundaries[s + 1] == s + 1,
        s >= sizes.len() ==> boundaries[s] == sizes.len() && boundaries[s + 1] == sizes.len(),
{
    assert(boundaries[s] == if s < sizes.len() {
        s
    } else {
        sizes.len() as int
    });
    assert(boundaries[s + 1] == if s + 1 < sizes.len() {
        s + 1
    } else {
        sizes.len() as int
    });
}

/// The shard that holds a centroid.
pub open spec fn holds(boundaries: Seq<usize>, s: int, centroid: int) -> bool {
    0 <= s < boundaries.len() - 1 && boundaries[s] <= centroid < boundaries[s + 1]
}

proof fn find_shard(boundaries: Seq<usize>, centroid: int, last: int) -> (s: int)
    requires
        0 <= last < boundaries.len(),
        boundaries[0] <= centroid < boundaries[last],
    ensures
        holds(boundaries, s, centroid),
    decreases last,
{
    if boundaries[last - 1] <= centroid {
        last - 1
    } else {
        find_shard(boundaries, centroid, last - 1)
    }
}

/// Every centroid is held by exactly one shard.
pub proof fn one_shard_per_centroid(boundaries: Seq<usize>, num_centroids: int, centroid: int)
    requires
        covers(boundaries, num_centroids),
        0 <= centroid < num_centroids,
    ensures
        exists|s: int| holds(boundaries, s, centroid),
        forall|s: int, t: int|
            #[trigger] holds(boundaries, s, centroid) && #[trigger] holds(boundaries, t, centroid)
                ==> s == t,
{
    let s = find_shard(boundaries, centroid, boundaries.len() - 1);
    assert(holds(boundaries, s, centroid));
    assert forall|s: int, t: int|
        #[trigger] holds(boundaries, s, centroid) && #[trigger] holds(
            boundaries,
            t,
            centroid,
        ) implies s == t by {
        if s < t {
            assert(boundaries[s + 1] <= boundaries[t]);
        } else if t < s {
            assert(boundaries[t + 1] <= boundaries[s]);
        }
    }
}

/// The least number that, taken `parts` times, is at least `total`.
fn ceil_part(total: i128, parts: usize) -> (r: i128)
    requires
        0 < parts,
        i128::MIN < total,
    ensures
        forall|x: int| x >= r <==> #[trigger] (x * parts) >= total,
{
    let p: i128 = parts as i128;
    if total >= 0 {
        let q: i128 = total / p;
        let rest: i128 = total % p;
        assert(total == q * p + rest && 0 <= rest < p) by (nonlinear_arith)
            requires
                q == total / p,
                rest == total % p,
                p > 0,
        ;
        if rest > 0 {
            assert(q < i128::MAX) by (nonlinear_arith)
                requires
                    total == q * p + rest,
                    rest > 0,
                    p >= 1,
                    q >= 0,
                    total <= i128::MAX,
            ;
            let r: i128 = q + 1;
            assert forall|x: int| x >= r <==> #[trigger] (x * parts) >= total by {
                assert(x >= r <==> x * p >= total) by (nonlinear_arith)
                    requires
                        total == q * p + rest,
                        0 < rest < p,
                        r == q + 1,
                ;
            }
            r
        } else {
            assert forall|x: int| x >= q <==> #[trigger] (x * parts) >= total by {
                assert(x >= q <==> x * p >= total) by (nonlinear_arith)
                    requires
                        total == q * p,
                        0 < p,
                ;
            }
            q
        }
    } else {
        let t: i128 = -total;
        let q: i128 = t / p;
        let rest: i128 = t % p;
        assert(t == q * p + rest && 0 <= rest < p) by (nonlinear_arith)
            requires
                q == t / p,
                rest == t % p,
                p > 0,
        ;
        let r: i128 = -q;
        assert forall|x: int| x >= r <==> #[trigger] (x * parts) >= total by {
            assert(x >= r <==> x * p >= total) by (nonlinear_arith)
                requires
                    -total == q * p + rest,
                    0 <= rest < p,
                    r == -q,
            ;
        }
        r
    }
}

proof fn range_sum_bounds(sizes: Seq<i64>, lo: int, hi: int)
    requires
        0 <= lo <= hi <= sizes.len(),
    ensures
        i64::MIN * (hi - lo) <= range_sum(sizes, lo, hi) <= i64::MAX * (hi - lo),
    decreases hi - lo,
{
    if lo < hi {
        range_sum_bounds(sizes, lo, hi - 1);
    }
}

/// Compute shard boundaries that balance the total number of embeddings across
/// shards. Returns a Vec of length `num_shards + 1` where `boundaries[i]` is
/// the first centroid ID of shard `i` and `boundaries[num_shards] == num_centroids`.
pub fn compute_balanced_boundaries(sizes: &Vec<i64>, num_shards: usize) -> (boundaries: Vec<usize>)
    requires
        0 < num_shards < usize::MAX,
    ensures
        is_balanced(sizes@, num_shards as int, boundaries@),
        boundaries@.len() == num_shards + 1,
        boundaries@[0] == 0,
        boundaries@[num_shards as int] == sizes@.len(),
{
    let num_centroids: usize = sizes.len();
    let mut boundaries: Vec<usize> = Vec::new();
    if num_shards >= num_centroids {
        // More shards than centroids: one centroid per shard (some empty).
        let mut i: usize = 0;
        while i < num_shards + 1
            invariant
                i <= num_shards + 1,
                num_shards < usize::MAX,
                boundaries@.len() == i,
                forall|j: int|
                    0 <= j < i ==> #[trigger] boundaries@[j] == if j < num_centroids {
                        j
                    } else {
                        num_centroids as int
                    },
            decreases num_shards + 1 - i,
        {
            boundaries.push(
                if i < num_centroids {
                    i
                } else {
                    num_centroids
                },
            );
            i += 1;
        }
        return boundaries;
    }
    let mut total: i128 = 0;
    let mut i: usize = 0;
    while i < num_centroids
        invariant
            i <= num_centroids,
            num_centroids == sizes@.len(),
            total == range_sum(sizes@, 0, i as int),
        decreases num_centroids - i,
    {
        proof {
            range_sum_bounds(sizes@, 0, i as int);
            range_sum_bounds(sizes@, 0, i + 1);
        }
        total = total + sizes[i] as i128;
        i += 1;
    }
    proof {
        range_sum_bounds(sizes@, 0, num_centroids as int);
    }
    let target_per_shard: i128 = ceil_part(total, num_shards);

    boundaries.push(0);
    let mut running: i128 = 0;
    let mut i: usize = 0;
    let ghost n = num_shards as int;
    while i < num_centroids
        invariant
            i <= num_centroids,
            num_centroids == sizes@.len(),
            n == num_shards,
            0 < num_shards < num_centroids,
            total == range_sum(sizes@, 0, num_centroids as int),
            forall|x: int| x >= target_per_shard <==> #[trigger] (x * num_shards) >= total,
            0 < boundaries@.len() <= num_shards,
            boundaries@[0] == 0,
            boundaries@.last() <= i,
            running == range_sum(sizes@, boundaries@.last() as int, i as int),
            boundaries@.len() < num_shards ==> forall|e: int|
                boundaries@.last() < e <= i ==> !#[trigger] is_cut(
                    sizes@,
                    n,
                    boundaries@.last() as int,
                    e,
                ),
            forall|k: int|
                0 < k < boundaries@.len() ==> ends_shard(
                    sizes@,
                    n,
                    boundaries@[k - 1] as int,
                    #[trigger] boundaries@[k] as int,
                ),
        decreases num_centroids - i,
    {
        let ghost last = boundaries@.last() as int;
        proof {
            range_sum_bounds(sizes@, last, i as int);
            range_sum_bounds(sizes@, last, i + 1);
        }
        running = running + sizes[i] as i128;
        // Place a boundary when we've accumulated enough, but don't exceed num_shards.
        assert(running >= target_per_shard <==> running * num_shards >= total);
        if running >= target_per_shard && boundaries.len() < num_shards {
            assert(is_cut(sizes@, n, last, i + 1));
            boundaries.push(i + 1);
            running = 0;
        }
        i += 1;
    }
    // In degenerate cases we may not have placed enough boundaries; fill in.
    while boundaries.len() < num_shards + 1
        invariant
            num_centroids == sizes@.len(),
            n == num_shards,
            0 < num_shards < num_centroids,
            0 < boundaries@.len() <= num_shards + 1,
            boundaries@[0] == 0,
            boundaries@.last() <= num_centroids,
            boundaries@.len() == num_shards + 1 ==> boundaries@.last() == num_centroids,
            boundaries@.len() < num_shards ==> forall|e: int|
                boundaries@.last() < e <= num_centroids ==> !#[trigger] is_cut(
                    sizes@,
                    n,
                    boundaries@.last() as int,
                    e,
                ),
            forall|k: int|
                0 < k < boundaries@.len() && k < num_shards ==> ends_shard(
                    sizes@,
                    n,
                    boundaries@[k - 1] as int,
                    #[trigger] boundaries@[k] as int,
                ),
        decreases num_shards + 1 - boundaries@.len(),
    {
        boundaries.push(num_centroids);
    }
    boundaries
}

/// The text in lower case, as std's Unicode tables have it.
pub uninterp spec fn lowercase(s: Seq<char>) -> Seq<char>;

/// The letters `A` to `Z` in lower case.
pub open spec fn ascii_lowercase(s: Seq<char>) -> Seq<char> {
    s.map_values(
        |c: char|
            if 'A' <= c <= 'Z' {
                (c as int + 32) as char
            } else {
                c
            },
    )
}

/// `str::to_lowercase` of std. The result is a function of the text; of a text
/// of ASCII characters it is the text with the letters `A` to `Z` in lower case.
#[verifier::external_body]
fn to_lowercase(s: &str) -> (r: String)
    ensures
        r@ == lowercase(s@),
        (forall|i: int| 0 <= i < s@.len() ==> (#[trigger] s@[i]) < '\u{80}') ==> r@
            == ascii_lowercase(s@),
{
    s.to_lowercase()
}

/// Why a device string cannot be used.
#[derive(Debug)]
pub enum DeviceError {
    /// What follows `cuda:` is no number
    InvalidIndex(String),
    /// More than one colon
    InvalidFormat,
    /// Any other string
    Unsupported(String),
}

impl DeviceError {
    /// The message for users.
    pub fn message(&self) -> (r: String)
        ensures
            r@ == (match *self {
                DeviceError::InvalidIndex(s) => "Invalid CUDA device index: '"@ + s@ + "'"@,
                DeviceError::InvalidFormat => "Invalid CUDA device format. Expected 'cuda:N'."@,
                DeviceError::Unsupported(s) => "Unsupported device string: '"@ + s@ + "'"@,
            }),
    {
        match self {
            DeviceError::InvalidIndex(s) => {
                let mut m = "Invalid CUDA device index: '".to_owned();
                m.append(s.as_str());
                m.append("'");
                m
            },
            DeviceError::InvalidFormat => "Invalid CUDA device format. Expected 'cuda:N'.".to_owned(),
            DeviceError::Unsupported(s) => {
                let mut m = "Unsupported device string: '".to_owned();
                m.append(s.as_str());
                m.append("'");
                m
            },
        }
    }
}

/// Whether the text is an indexed CUDA device.
pub open spec fn is_indexed(lower: Seq<char>) -> bool {
    text::occurs_at(lower, "cuda:"@, 0)
}

/// What a device string, given in lower case, stands for.
pub open spec fn names_device(lower: Seq<char>, given: Seq<char>, r: Result<Device, DeviceError>) -> bool {
    if lower == "cpu"@ {
        r == Ok::<Device, DeviceError>(Device::Cpu)
    } else if lower == "mps"@ {
        r == Ok::<Device, DeviceError>(Device::Mps)
    } else if lower == "cuda"@ {
        r == Ok::<Device, DeviceError>(Device::Cuda(0))
    } else if is_indexed(lower) {
        let index = lower.skip(5);
        if index.contains(':') {
            r == Err::<Device, DeviceError>(DeviceError::InvalidFormat)
        } else {
            match text::parsed_usize(index) {
                Some(n) => r == Ok::<Device, DeviceError>(Device::Cuda(n)),
                None => r matches Err(DeviceError::InvalidIndex(s)) && s@ == index,
            }
        }
    } else {
        r matches Err(DeviceError::Unsupported(s)) && s@ == given
    }
}

/// The names of devices: `cpu`, `mps`, and `cuda` with an index after a colon, which
/// is 0 where it is left out. No other name is a device.
pub proof fn device_names(lower: Seq<char>, given: Seq<char>, index: nat, r: Result<Device, DeviceError>)
    requires
        names_device(lower, given, r),
    ensures
        lower == "cpu"@ ==> r == Ok::<Device, DeviceError>(Device::Cpu),
        lower == "mps"@ ==> r == Ok::<Device, DeviceError>(Device::Mps),
        lower == "cuda"@ ==> r == Ok::<Device, DeviceError>(Device::Cuda(0)),
        lower == "cuda:"@ + text::decimal(index) && index <= usize::MAX ==> r == Ok::<
            Device,
            DeviceError,
        >(Device::Cuda(index as usize)),
        r is Ok ==> lower == "cpu"@ || lower == "mps"@ || lower == "cuda"@ || "cuda:"@.is_prefix_of(
            lower,
        ),
        "cuda:"@.is_prefix_of(lower) && lower.skip(5).contains(':') ==> r is Err
            && r->Err_0 is InvalidFormat,
        "cuda:"@.is_prefix_of(lower) && !lower.skip(5).contains(':') && text::parsed_usize(
            lower.skip(5),
        ) is None ==> r is Err && (r->Err_0 matches DeviceError::InvalidIndex(s) && s@
            == lower.skip(5)),
        r matches Err(DeviceError::Unsupported(s)) ==> s@ == given,
{
    reveal_strlit("cpu");
    reveal_strlit("mps");
    reveal_strlit("cuda");
    reveal_strlit("cuda:");
    let colon = "cuda:"@;
    if lower == colon + text::decimal(index) {
        text::decimal_reads_back(index);
        assert(lower.len() >= 6);
        assert(lower.skip(5) =~= text::decimal(index));
        assert(lower.subrange(0, 5) =~= colon);
        assert(text::occurs_at(lower, colon, 0));
        if text::decimal(index).contains(':') {
            let i = choose|i: int| 0 <= i < text::decimal(index).len() && text::decimal(index)[i] == ':';
            assert(text::is_digit(text::decimal(index)[i]));
        }
    }
    if text::occurs_at(lower, colon, 0) {
        assert(lower.subrange(0, 5) == colon);
        assert forall|i: int| 0 <= i < 5 implies lower[i] == colon[i] by {
            assert(lower.subrange(0, 5)[i] == lower[i]);
        }
    }
    if colon.is_prefix_of(lower) {
        assert(lower.subrange(0, 5) =~= colon);
        assert(text::occurs_at(lower, colon, 0));
    }
    let (cpu, mps, cuda) = ("cpu"@, "mps"@, "cuda"@);
    assert(cpu[0] == 'c' && mps[0] == 'm');
    assert(cpu.len() == 3 && mps.len() == 3 && cuda.len() == 4 && colon.len() == 5);
}

/// The device that a string in lower case stands for.
pub fn device_from_lowercase(lower: &str, given: &str) -> (r: Result<Device, DeviceError>)
    ensures
        names_device(lower@, given@, r),
{
    let s = text::chars_of(lower);
    if text::equals(&s, "cpu") {
        return Ok(Device::Cpu);
    }
    if text::equals(&s, "mps") {
        return Ok(Device::Mps);
    }
    if text::equals(&s, "cuda") {
        return Ok(Device::Cuda(0));
    }
    if text::starts_with(&s, "cuda:") {
        proof {
            reveal_strlit("cuda:");
        }
        let colon: usize = text::find_char(&s, ':', 5);
        let ghost index = s@.skip(5);
        if colon < s.len() {
            assert(index[colon - 5] == ':');
            return Err(DeviceError::InvalidFormat);
        }
        proof {
            text::first_char_is_first(s@, ':', 5);
            assert forall|i: int| 0 <= i < index.len() implies index[i] != ':' by {
                assert(s@[i + 5] != ':');
            }
        }
        let digits: Vec<char> = text::chars_of(text::string_of(&s, 5, s.len()).as_str());
        assert(digits@ =~= index);
        return match text::parse_usize(&digits) {
            Some(n) => Ok(Device::Cuda(n)),
            None => {
                let rest = text::string_of(&s, 5, s.len());
                assert(rest@ =~= index);
                Err(DeviceError::InvalidIndex(rest))
            },
        };
    }
    Err(DeviceError::Unsupported(given.to_owned()))
}

/// Parses a string identifier into a device.
///
/// Supports simple device strings like "cpu", "cuda", and indexed CUDA devices
/// such as "cuda:0", in upper or lower case.
pub fn parse_device(device: &str) -> (r: Result<Device, DeviceError>)
    ensures
        names_device(lowercase(device@), device@, r),
        (forall|i: int| 0 <= i < device@.len() ==> (#[trigger] device@[i]) < '\u{80}')
            ==> names_device(ascii_lowercase(device@), device@, r),
{
    let lower = to_lowercase(device);
    device_from_lowercase(lower.as_str(), device)
}

/// Why a dtype string cannot be used: it is none of those supported.
#[derive(Debug)]
pub struct DtypeError {
    pub given: String,
}

impl DtypeError {
    /// The message for users.
    pub fn message(&self) -> (r: String)
        ensures
            r@ == "Unsupported dtype string: '"@ + self.given@
                + "', should be 'float32', 'float16', 'float64', or 'bfloat16'"@,
    {
        let mut m = "Unsupported dtype string: '".to_owned();
        m.append(self.given.as_str());
        m.append("', should be 'float32', 'float16', 'float64', or 'bfloat16'");
        m
    }
}

/// What a dtype string, given in lower case, stands for.
pub open spec fn names_dtype(lower: Seq<char>, given: Seq<char>, r: Result<Kind, DtypeError>) -> bool {
    if lower == "float32"@ {
        r == Ok::<Kind, DtypeError>(Kind::Float)
    } else if lower == "float16"@ {
        r == Ok::<Kind, DtypeError>(Kind::Half)
    } else if lower == "float64"@ {
        r == Ok::<Kind, DtypeError>(Kind::Double)
    } else if lower == "bfloat16"@ {
        r == Ok::<Kind, DtypeError>(Kind::BFloat16)
    } else {
        r matches Err(e) && e.given@ == given
    }
}

/// The names of element types, and no others.
pub proof fn dtype_names(lower: Seq<char>, given: Seq<char>, r: Result<Kind, DtypeError>)
    requires
        names_dtype(lower, given, r),
    ensures
        r == Ok::<Kind, DtypeError>(Kind::Float) <==> lower == "float32"@,
        r == Ok::<Kind, DtypeError>(Kind::Half) <==> lower == "float16"@,
        r == Ok::<Kind, DtypeError>(Kind::Double) <==> lower == "float64"@,
        r == Ok::<Kind, DtypeError>(Kind::BFloat16) <==> lower == "bfloat16"@,
        r is Ok ==> lower == "float32"@ || lower == "float16"@ || lower == "float64"@ || lower
            == "bfloat16"@,
        r matches Err(e) ==> e.given@ == given,
{
    reveal_strlit("float32");
    reveal_strlit("float16");
    reveal_strlit("float64");
    reveal_strlit("bfloat16");
    let (a, b, c, d) = ("float32"@, "float16"@, "float64"@, "bfloat16"@);
    assert(a[5] == '3' && b[5] == '1' && c[5] == '6' && d[0] == 'b' && a[0] == 'f' && b[0] == 'f'
        && c[0] == 'f');
}

/// The element type that a string in lower case stands for.
pub fn dtype_from_lowercase(lower: &str, given: &str) -> (r: Result<Kind, DtypeError>)
    ensures
        names_dtype(lower@, given@, r),
{
    let s = text::chars_of(lower);
    if text::equals(&s, "float32") {
        return Ok(Kind::Float);
    }
    if text::equals(&s, "float16") {
        return Ok(Kind::Half);
    }
    if text::equals(&s, "float64") {
        return Ok(Kind::Double);
    }
    if text::equals(&s, "bfloat16") {
        return Ok(Kind::BFloat16);
    }
    Err(DtypeError { given: given.to_owned() })
}

/// Parses a string identifier into an element type.
///
/// Supports simple strings like "float32", "float16", in upper or lower case.
pub fn parse_dtype(dtype: &str) -> (r: Result<Kind, DtypeError>)
    ensures
        names_dtype(lowercase(dtype@), dtype@, r),
        (forall|i: int| 0 <= i < dtype@.len() ==> (#[trigger] dtype@[i]) < '\u{80}')
            ==> names_dtype(ascii_lowercase(dtype@), dtype@, r),
{
    let lower = to_lowercase(dtype);
    dtype_from_lowercase(lower.as_str(), dtype)
}

} // verus!
