//! Changes to an existing index: adding, updating, compacting.

use crate::index::encode::{ChunkData, CHUNK_SIZE};
use crate::index::files;
use crate::index::files::ChunkMeta;
use crate::index::rewrite;
use crate::index::rewrite::ChunkDocs;
use crate::search::loader;
use crate::search::tombstones::Tombstones;
use crate::utils::types;
use crate::utils::types::{AddResult, AvgDoclen, CompactStats, IndexMetadata, IndexPlan};
use vstd::prelude::*;

verus! {

/// Threshold below which we append to the last chunk instead of creating a new
/// one: where fewer documents are added, or the last chunk has fewer.
pub const COALESCE_THRESHOLD: u64 = 2_000;

/// Why an index cannot be changed.
#[derive(Debug)]
pub enum UpdateError {
    /// There is not one passage ID for each document
    PassageIdCount { passage_ids: usize, num_docs: usize },
    /// The metadata of a chunk is no JSON
    InvalidChunkMetadata(serde_json::Error),
}

/// Where new documents go by the size of the last chunk, given what its metadata
/// says of its number of passages: into the last chunk where that is small, else
/// into a new chunk. A chunk of unknown size is not small.
pub open spec fn coalesced(num_chunks: usize, num_passages: Option<u64>) -> (usize, bool) {
    if num_chunks > 0 && num_passages is Some && num_passages->Some_0 < COALESCE_THRESHOLD {
        ((num_chunks - 1) as usize, true)
    } else {
        (num_chunks, false)
    }
}

/// The chunk that new documents start in, and whether it is the last existing one.
pub fn coalesce_decision(num_chunks: usize, num_passages: Option<u64>) -> (r: (usize, bool))
    ensures
        r == coalesced(num_chunks, num_passages),
{
    match num_passages {
        Some(n) if num_chunks > 0 && n < COALESCE_THRESHOLD => (num_chunks - 1, true),
        _ => (num_chunks, false),
    }
}

/// Decide whether the last existing chunk is so small that new data should be
/// coalesced into it, given the contents of its metadata file, where it exists.
pub fn should_coalesce(num_chunks: usize, last_chunk_meta: Option<&Vec<u8>>) -> (r: Result<
    (usize, bool),
    UpdateError,
>)
    ensures
        match r {
            Ok(d) => d == (match last_chunk_meta {
                Some(json) => if num_chunks == 0 {
                    coalesced(num_chunks, None)
                } else {
                    coalesced(
                        num_chunks,
                        match files::json_number(json@, "num_passages"@) {
                            Some(n) => n,
                            None => None,
                        },
                    )
                },
                None => coalesced(num_chunks, None),
            }),
            Err(e) => e is InvalidChunkMetadata,
        },
        r is Err <==> num_chunks > 0 && last_chunk_meta is Some && files::json_number(
            last_chunk_meta->Some_0@,
            "num_passages"@,
        ) is None,
{
    if num_chunks == 0 {
        return Ok(coalesce_decision(num_chunks, None));
    }
    match last_chunk_meta {
        Some(json) => match files::read_num_passages(json) {
            Ok(n) => Ok(coalesce_decision(num_chunks, n)),
            Err(e) => Err(UpdateError::InvalidChunkMetadata(e)),
        },
        None => Ok(coalesce_decision(num_chunks, None)),
    }
}

/// A chunk whose metadata this library wrote counts as small exactly where it has
/// fewer passages than the threshold.
pub proof fn written_metadata_decides(meta: ChunkMeta, json: Seq<u8>, num_chunks: usize)
    requires
        num_chunks > 0,
        files::json_number(json, "num_passages"@) == Some(Some(meta.num_passages as u64)),
    ensures
        coalesced(num_chunks, files::json_number(json, "num_passages"@)->Some_0).1 <==> (
        meta.num_passages < COALESCE_THRESHOLD),
{
}

/// The chunk that an addition starts in, and whether it is the last existing one,
/// given what the last chunk's metadata says of its number of passages, where it
/// is there. A small addition goes into the last chunk, and so does any addition
/// where the last chunk is small. Where nothing is added, no chunk is touched.
pub open spec fn addition_start(
    num_docs: usize,
    num_chunks: usize,
    last_chunk: Option<Option<u64>>,
) -> (usize, bool) {
    match last_chunk {
        Some(num_passages) => if num_docs > 0 && num_chunks > 0 && (num_docs < COALESCE_THRESHOLD
            || (num_passages matches Some(n) && n < COALESCE_THRESHOLD)) {
            ((num_chunks - 1) as usize, true)
        } else {
            (num_chunks, false)
        },
        None => (num_chunks, false),
    }
}

/// The chunk that an addition starts in, and whether it is the last existing one,
/// given where documents go by the size of the last chunk.
pub fn addition_decision(
    num_docs: usize,
    num_chunks: usize,
    last_chunk_exists: bool,
    by_size: (usize, bool),
) -> (r: (usize, bool))
    ensures
        r == (if num_docs == 0 {
            (num_chunks, false)
        } else if num_docs < COALESCE_THRESHOLD && num_chunks > 0 && last_chunk_exists {
            ((num_chunks - 1) as usize, true)
        } else {
            by_size
        }),
{
    if num_docs == 0 {
        (num_chunks, false)
    } else if (num_docs as u64) < COALESCE_THRESHOLD && num_chunks > 0 && last_chunk_exists {
        (num_chunks - 1, true)
    } else {
        by_size
    }
}

/// An addition goes into the last chunk exactly where there is something to add, the
/// last chunk's metadata is there, and one of the two is small: fewer than 2000
/// documents are added, or the last chunk has fewer than 2000. Else it starts a new
/// chunk.
pub proof fn small_additions_share_a_chunk(
    num_docs: usize,
    num_chunks: usize,
    last_chunk: Option<Option<u64>>,
)
    ensures
        ({
            let (start, coalesce) = addition_start(num_docs, num_chunks, last_chunk);
            &&& coalesce <==> num_docs > 0 && num_chunks > 0 && last_chunk is Some && (num_docs
                < 2_000 || (last_chunk->Some_0 is Some && last_chunk->Some_0->Some_0 < 2_000))
            &&& coalesce ==> start + 1 == num_chunks
            &&& !coalesce ==> start == num_chunks
        }),
{
}

/// By its size alone, the last chunk takes more documents exactly where it is known
/// to have fewer than 2000.
pub proof fn small_chunks_take_more(num_chunks: usize, num_passages: Option<u64>)
    ensures
        ({
            let (start, coalesce) = coalesced(num_chunks, num_passages);
            &&& coalesce <==> num_chunks > 0 && num_passages is Some && num_passages->Some_0 < 2_000
            &&& coalesce ==> start + 1 == num_chunks
            &&& !coalesce ==> start == num_chunks
        }),
{
}

/// What the metadata of a chunk says of its number of passages.
pub open spec fn stated_passages(json: Option<&Vec<u8>>) -> Option<Option<u64>> {
    match json {
        Some(j) => files::json_number(j@, "num_passages"@),
        None => None,
    }
}

/// What a chunk says of its number of passages is what its metadata holds under
/// `num_passages`.
pub proof fn stated_passages_are_read(json: &Vec<u8>)
    ensures
        stated_passages(None) is None,
        stated_passages(Some(json)) == files::json_number(json@, "num_passages"@),
{
}

/// The number of chunks that documents take, at least one.
pub open spec fn chunks_for(num_docs: int) -> int {
    if num_docs <= 0 {
        1
    } else {
        (num_docs + CHUNK_SIZE - 1) / CHUNK_SIZE as int
    }
}

/// The plan for encoding documents into an existing index.
pub open spec fn encode_plan(num_docs: usize, nbits: u8) -> IndexPlan {
    IndexPlan {
        n_docs: num_docs,
        num_chunks: chunks_for(num_docs as int) as usize,
        avg_doc_len: AvgDoclen::Zero,
        est_total_embs: 0,
        nbits,
    }
}

/// Documents take the fewest chunks that hold them, 25000 to a chunk, but at least
/// one; and all of them are planned for.
pub proof fn planned_chunks_hold_documents(num_docs: usize, nbits: u8)
    ensures
        ({
            let plan = encode_plan(num_docs, nbits);
            &&& num_docs <= plan.num_chunks * 25_000
            &&& plan.num_chunks == 1 || (plan.num_chunks - 1) * 25_000 < num_docs
            &&& plan.num_chunks >= 1
            &&& plan.n_docs == num_docs
            &&& plan.nbits == nbits
            &&& plan.avg_doc_len == AvgDoclen::Zero
            &&& plan.est_total_embs == 0
        }),
{
}

fn plan_encoding(num_docs: usize, nbits: u8) -> (r: IndexPlan)
    ensures
        r == encode_plan(num_docs, nbits),
{
    let num_chunks: usize = if num_docs == 0 {
        1
    } else {
        (num_docs - 1) / CHUNK_SIZE + 1
    };
    IndexPlan { n_docs: num_docs, num_chunks, avg_doc_len: AvgDoclen::Zero, est_total_embs: 0, nbits }
}

/// The number of bytes of a packed residual.
pub open spec fn residual_bytes(dim: usize, nbits: u8) -> int {
    (dim * nbits) / 8
}

/// A packed residual has as many whole bytes as its bits fill.
pub proof fn residual_bytes_are_filled(dim: usize, nbits: u8)
    ensures
        8 * residual_bytes(dim, nbits) <= dim * nbits < 8 * residual_bytes(dim, nbits) + 8,
{
}

fn residual_dim(dim: usize, nbits: u8) -> (r: usize)
    requires
        dim * nbits <= usize::MAX,
    ensures
        r == residual_bytes(dim, nbits),
{
    (dim * nbits as usize) / 8
}

/// The average length of documents that statistics give.
pub open spec fn average(stats: CompactStats) -> AvgDoclen {
    if stats.num_active_passages > 0 {
        AvgDoclen::Quotient {
            embeddings: stats.total_embeddings,
            passages: stats.num_active_passages,
        }
    } else {
        AvgDoclen::Zero
    }
}

fn average_doclen(stats: &CompactStats) -> (r: AvgDoclen)
    ensures
        r == average(*stats),
{
    if stats.num_active_passages > 0 {
        AvgDoclen::Quotient {
            embeddings: stats.total_embeddings,
            passages: stats.num_active_passages,
        }
    } else {
        AvgDoclen::Zero
    }
}

/// Metadata that takes the counts from the statistics, the number of chunks and
/// the next ID as given, and keeps everything else.
pub open spec fn is_updated(
    meta: IndexMetadata,
    stats: CompactStats,
    num_chunks: usize,
    next_pid: i64,
    r: IndexMetadata,
) -> bool {
    &&& r.num_chunks == num_chunks
    &&& r.num_embeddings == stats.total_embeddings
    &&& r.avg_doclen == average(stats)
    &&& r.num_passages == stats.num_active_passages
    &&& r.next_passage_id == next_pid
    &&& r.nbits == meta.nbits
    &&& r.num_partitions == meta.num_partitions
    &&& r.num_centroids == meta.num_centroids
    &&& r.dim == meta.dim
    &&& r.created_at@ == meta.created_at@
    &&& r.num_shards == meta.num_shards
    &&& types::same_boundaries(r.shard_boundaries, meta.shard_boundaries)
}

/// The metadata after a change counts what the merged structures hold, and their
/// average length is that of the documents counted. The next ID is the given one, and
/// what describes the embeddings and the shards stays.
pub proof fn updated_metadata_counts(
    meta: IndexMetadata,
    stats: CompactStats,
    num_chunks: usize,
    next_pid: i64,
    r: IndexMetadata,
)
    requires
        is_updated(meta, stats, num_chunks, next_pid, r),
    ensures
        r.num_embeddings == stats.total_embeddings,
        r.num_passages == stats.num_active_passages,
        r.num_passages > 0 ==> r.avg_doclen == (AvgDoclen::Quotient {
            embeddings: r.num_embeddings,
            passages: r.num_passages,
        }),
        r.num_passages <= 0 ==> r.avg_doclen == AvgDoclen::Zero,
        r.num_chunks == num_chunks,
        r.next_passage_id == next_pid,
        r.num_centroids == meta.num_centroids,
        r.num_partitions == meta.num_partitions,
        r.nbits == meta.nbits,
        r.dim == meta.dim,
        r.created_at@ == meta.created_at@,
        r.num_shards == meta.num_shards,
        meta.shard_boundaries is Some <==> r.shard_boundaries is Some,
        meta.shard_boundaries is Some ==> r.shard_boundaries->Some_0@
            == meta.shard_boundaries->Some_0@,
{
}

/// Update metadata from compaction stats.
pub fn metadata_from_stats(
    meta: &IndexMetadata,
    stats: &CompactStats,
    num_chunks: usize,
    next_pid: i64,
) -> (r: IndexMetadata)
    ensures
        is_updated(*meta, *stats, num_chunks, next_pid, r),
        r.num_embeddings == stats.total_embeddings,
        r.num_passages == stats.num_active_passages,
        r.num_passages > 0 ==> r.avg_doclen == (AvgDoclen::Quotient {
            embeddings: r.num_embeddings,
            passages: r.num_passages,
        }),
        r.num_passages <= 0 ==> r.avg_doclen == AvgDoclen::Zero,
        r.num_chunks == num_chunks,
        r.next_passage_id == next_pid,
{
    IndexMetadata {
        num_chunks,
        nbits: meta.nbits,
        num_partitions: meta.num_partitions,
        num_embeddings: stats.total_embeddings,
        avg_doclen: average_doclen(stats),
        num_passages: stats.num_active_passages,
        next_passage_id: next_pid,
        num_centroids: meta.num_centroids,
        dim: meta.dim,
        created_at: meta.created_at.clone(),
        num_shards: meta.num_shards,
        shard_boundaries: types::copy_boundaries(&meta.shard_boundaries),
    }
}

/// How new documents are added to an index.
pub struct AddPlan {
    /// One new ID for each document
    pub new_passage_ids: Vec<i64>,
    /// The chunk that the documents start in
    pub start_chunk_idx: usize,
    /// Whether that chunk holds older documents, which stay before the new ones
    pub coalesce: bool,
    pub encoding: IndexPlan,
    pub residual_dim: usize,
}

/// The IDs from `next` on, one for each document.
pub open spec fn fresh_ids(next: int, num_docs: int) -> Seq<i64> {
    Seq::new(num_docs as nat, |i: int| (next + i) as i64)
}

/// New documents get consecutive IDs from the next one on, so that no ID given out
/// before is given out again and no two documents share one.
pub proof fn fresh_ids_are_new(next: i64, num_docs: int)
    requires
        0 <= num_docs,
        next + num_docs <= i64::MAX,
    ensures
        fresh_ids(next as int, num_docs).len() == num_docs,
        forall|i: int| 0 <= i < num_docs ==> #[trigger] fresh_ids(next as int, num_docs)[i] == next + i,
        fresh_ids(next as int, num_docs).no_duplicates(),
{
}

impl AddPlan {
    /// The documents follow those of the index: they start in a new chunk, or in
    /// the last one, which some of them then share.
    pub open spec fn extends(self, meta: IndexMetadata) -> bool {
        &&& self.start_chunk_idx + (if self.coalesce {
            1int
        } else {
            0int
        }) == meta.num_chunks
        &&& self.coalesce ==> self.new_passage_ids@.len() > 0
    }

    /// Plans the addition of documents, given the contents of the last chunk's
    /// metadata file, where there is one.
    pub fn new(meta: &IndexMetadata, num_docs: usize, last_chunk_meta: Option<&Vec<u8>>) -> (r: Result<
        Self,
        UpdateError,
    >)
        requires
            meta.next_passage_id + num_docs <= i64::MAX,
            meta.dim * meta.nbits <= usize::MAX,
        ensures
            match r {
                Ok(p) => {
                    &&& p.new_passage_ids@ == fresh_ids(
                        meta.next_passage_id as int,
                        num_docs as int,
                    )
                    &&& p.new_passage_ids@.len() == num_docs
                    &&& forall|i: int|
                        0 <= i < num_docs ==> #[trigger] p.new_passage_ids@[i]
                            == meta.next_passage_id + i
                    &&& p.encoding == encode_plan(num_docs, meta.nbits)
                    &&& p.residual_dim == residual_bytes(meta.dim, meta.nbits)
                    &&& (p.start_chunk_idx, p.coalesce) == addition_start(
                        num_docs,
                        meta.num_chunks,
                        stated_passages(last_chunk_meta),
                    )
                    &&& p.extends(*meta)
                },
                Err(e) => e is InvalidChunkMetadata,
            },
            r is Err <==> meta.num_chunks > 0 && last_chunk_meta is Some && files::json_number(
                last_chunk_meta->Some_0@,
                "num_passages"@,
            ) is None,
    {
        let mut new_passage_ids: Vec<i64> = Vec::new();
        let mut i: usize = 0;
        while i < num_docs
            invariant
                i <= num_docs,
                meta.next_passage_id + num_docs <= i64::MAX,
                new_passage_ids@ == fresh_ids(meta.next_passage_id as int, i as int),
            decreases num_docs - i,
        {
            let pid: i128 = meta.next_passage_id as i128 + i as i128;
            new_passage_ids.push(pid as i64);
            i += 1;
            assert(new_passage_ids@ =~= fresh_ids(meta.next_passage_id as int, i as int));
        }
        let (start_chunk_idx, coalesce) = match should_coalesce(meta.num_chunks, last_chunk_meta) {
            Ok(by_size) => addition_decision(
                num_docs,
                meta.num_chunks,
                last_chunk_meta.is_some(),
                by_size,
            ),
            Err(e) => {
                return Err(e);
            },
        };
        let encoding = plan_encoding(num_docs, meta.nbits);
        let residual_dim: usize = residual_dim(meta.dim, meta.nbits);
        Ok(AddPlan { new_passage_ids, start_chunk_idx, coalesce, encoding, residual_dim })
    }

    /// The metadata and the result once `num_encoded` chunks have been encoded
    /// and merged, at least one where there are documents.
    pub fn finish<S>(
        self,
        meta: &IndexMetadata,
        num_encoded: usize,
        stats: &CompactStats,
        residual_norms: Option<Vec<S>>,
    ) -> (r: (IndexMetadata, AddResult<S>))
        requires
            self.extends(*meta),
            self.new_passage_ids@.len() > 0 ==> 0 < num_encoded,
            self.start_chunk_idx + num_encoded <= usize::MAX,
            meta.next_passage_id + self.new_passage_ids@.len() <= i64::MAX,
        ensures
            is_updated(
                *meta,
                *stats,
                (self.start_chunk_idx + num_encoded) as usize,
                (meta.next_passage_id + self.new_passage_ids@.len()) as i64,
                r.0,
            ),
            r.0.num_embeddings == stats.total_embeddings,
            r.0.num_passages == stats.num_active_passages,
            r.0.num_passages > 0 ==> r.0.avg_doclen == (AvgDoclen::Quotient {
                embeddings: r.0.num_embeddings,
                passages: r.0.num_passages,
            }),
            r.0.num_passages <= 0 ==> r.0.avg_doclen == AvgDoclen::Zero,
            r.0.num_chunks == self.start_chunk_idx + num_encoded,
            r.0.next_passage_id == meta.next_passage_id + self.new_passage_ids@.len(),
            r.1.new_passage_ids == self.new_passage_ids,
            match residual_norms {
                Some(n) => r.1.residual_norms == n,
                None => r.1.residual_norms@.len() == 0,
            },
            r.1.embedding_dim == meta.dim,
            r.0.num_chunks >= meta.num_chunks,
            meta.shards_wf() ==> r.0.shards_wf(),
    {
        let total_chunks: usize = self.start_chunk_idx + num_encoded;
        let added: usize = self.new_passage_ids.len();
        let next_pid: i128 = meta.next_passage_id as i128 + added as i128;
        let updated = metadata_from_stats(meta, stats, total_chunks, next_pid as i64);
        let residual_norms = match residual_norms {
            Some(n) => n,
            None => Vec::new(),
        };
        (
            updated,
            AddResult {
                new_passage_ids: self.new_passage_ids,
                residual_norms,
                embedding_dim: meta.dim,
            },
        )
    }
}

/// How documents are updated in place.
#[derive(Debug, Clone, Copy, PartialEq, Eq, Structural)]
pub struct UpdatePlan {
    /// The first new chunk
    pub start_chunk_idx: usize,
    pub encoding: IndexPlan,
    pub residual_dim: usize,
}

impl UpdatePlan {
    /// Plans the update of the given passages by as many documents.
    pub fn new(meta: &IndexMetadata, num_passage_ids: usize, num_docs: usize) -> (r: Result<
        Self,
        UpdateError,
    >)
        requires
            meta.dim * meta.nbits <= usize::MAX,
        ensures
            match r {
                Ok(p) => num_passage_ids == num_docs && p == (UpdatePlan {
                    start_chunk_idx: meta.num_chunks,
                    encoding: encode_plan(num_docs, meta.nbits),
                    residual_dim: residual_bytes(meta.dim, meta.nbits) as usize,
                }),
                Err(UpdateError::PassageIdCount { passage_ids, num_docs: d }) => num_passage_ids
                    != num_docs && passage_ids == num_passage_ids && d == num_docs,
                Err(_) => false,
            },
    {
        if num_passage_ids != num_docs {
            return Err(UpdateError::PassageIdCount { passage_ids: num_passage_ids, num_docs });
        }
        let encoding = plan_encoding(num_docs, meta.nbits);
        let residual_dim: usize = residual_dim(meta.dim, meta.nbits);
        Ok(UpdatePlan { start_chunk_idx: meta.num_chunks, encoding, residual_dim })
    }

    /// The metadata once `num_encoded` chunks have been encoded and merged. The
    /// next ID stays the same: passages are replaced, not appended.
    pub fn finish(&self, meta: &IndexMetadata, num_encoded: usize, stats: &CompactStats) -> (r:
        IndexMetadata)
        requires
            self.start_chunk_idx + num_encoded <= usize::MAX,
        ensures
            is_updated(
                *meta,
                *stats,
                (self.start_chunk_idx + num_encoded) as usize,
                meta.next_passage_id,
                r,
            ),
            r.num_embeddings == stats.total_embeddings,
            r.num_passages == stats.num_active_passages,
            r.num_passages > 0 ==> r.avg_doclen == (AvgDoclen::Quotient {
                embeddings: r.num_embeddings,
                passages: r.num_passages,
            }),
            r.num_passages <= 0 ==> r.avg_doclen == AvgDoclen::Zero,
            r.num_chunks == self.start_chunk_idx + num_encoded,
            r.next_passage_id == meta.next_passage_id,
            meta.shards_wf() ==> r.shards_wf(),
    {
        metadata_from_stats(
            meta,
            stats,
            self.start_chunk_idx + num_encoded,
            meta.next_passage_id,
        )
    }
}

/// An update, which marks its passages as deleted before and takes the marks
/// away after, leaves exactly the deletions of other passages.
pub proof fn update_keeps_other_deletions(deleted: Set<i64>, updated: Set<i64>)
    ensures
        deleted.union(updated).difference(updated) == deleted.difference(updated),
{
    assert(deleted.union(updated).difference(updated) =~= deleted.difference(updated));
}

/// Where a compaction stands.
#[derive(Debug, Clone, Copy, PartialEq, Eq, Structural)]
pub enum CompactStage {
    /// Chunks are to be rewritten without the deleted and replaced passages
    RewriteChunks,
    /// Empty centroids are to be pruned
    PruneCentroids,
    /// The compacted structures are to be rebuilt
    Rebuild,
    /// The cluster threshold is to be recalibrated
    Recalibrate,
    /// The metadata is to be saved
    Save,
}

/// A compaction: rewrites chunk files to remove deleted and replaced data, prunes
/// empty centroids, rebuilds compacted structures, and recalibrates the threshold.
pub struct Compaction {
    pub stage: CompactStage,
    pub num_chunks: usize,
    pub num_centroids: usize,
    /// The number of shards, which stays
    pub num_shards: Option<usize>,
    pub stats: CompactStats,
    /// The boundaries of the rebuilt shards, where there is more than one
    pub boundaries: Option<Vec<usize>>,
}

/// The number of shards, where there is more than one.
pub open spec fn several(num_shards: Option<usize>) -> Option<usize> {
    match num_shards {
        Some(n) => if n > 1 {
            Some(n)
        } else {
            None
        },
        None => None,
    }
}

/// The boundaries after a compaction, as a sequence: the new ones; else those of
/// one shard, which holds all centroids; else, without shards, the old ones.
pub open spec fn boundaries_after(c: Compaction, meta: IndexMetadata) -> Option<Seq<usize>> {
    match (c.boundaries, meta.shard_boundaries) {
        (Some(b), _) => Some(b@),
        (None, Some(b)) => if meta.num_shards == Some(1usize) {
            Some(seq![0usize, c.num_centroids])
        } else {
            Some(b@)
        },
        (None, None) => None,
    }
}

/// The metadata of a compacted index: new counts, and boundaries for them;
/// everything else, the next ID too, stays.
pub open spec fn is_compacted(meta: IndexMetadata, c: Compaction, r: IndexMetadata) -> bool {
    &&& r.num_chunks == c.num_chunks
    &&& r.num_centroids == c.num_centroids
    &&& r.num_embeddings == c.stats.total_embeddings
    &&& r.num_passages == c.stats.num_active_passages
    &&& r.avg_doclen == average(c.stats)
    &&& r.next_passage_id == meta.next_passage_id
    &&& r.nbits == meta.nbits
    &&& r.num_partitions == meta.num_partitions
    &&& r.dim == meta.dim
    &&& r.created_at@ == meta.created_at@
    &&& r.num_shards == meta.num_shards
    &&& match r.shard_boundaries {
        Some(b) => boundaries_after(c, meta) == Some(b@),
        None => boundaries_after(c, meta) is None,
    }
}

/// The metadata that a compaction saves counts what the rebuilt structures hold: the
/// rows and documents that are left, not those from before. IDs are not given out
/// again, and what describes the embeddings stays. Boundaries are the rebuilt ones,
/// or those of one shard with all centroids that are left.
pub proof fn compacted_metadata_counts(meta: IndexMetadata, c: Compaction, r: IndexMetadata)
    requires
        is_compacted(meta, c, r),
    ensures
        r.num_embeddings == c.stats.total_embeddings,
        r.num_passages == c.stats.num_active_passages,
        r.num_passages > 0 ==> r.avg_doclen == (AvgDoclen::Quotient {
            embeddings: r.num_embeddings,
            passages: r.num_passages,
        }),
        r.num_passages <= 0 ==> r.avg_doclen == AvgDoclen::Zero,
        r.num_chunks == c.num_chunks,
        r.num_centroids == c.num_centroids,
        r.next_passage_id == meta.next_passage_id,
        r.num_partitions == meta.num_partitions,
        r.nbits == meta.nbits,
        r.dim == meta.dim,
        r.created_at@ == meta.created_at@,
        r.num_shards == meta.num_shards,
        c.boundaries is Some ==> r.shard_boundaries is Some && r.shard_boundaries->Some_0@
            == c.boundaries->Some_0@,
        c.boundaries is None && meta.shard_boundaries is None ==> r.shard_boundaries is None,
        c.boundaries is None && meta.shard_boundaries is Some && meta.num_shards == Some(1usize)
            ==> r.shard_boundaries is Some && r.shard_boundaries->Some_0@ == seq![
            0usize,
            c.num_centroids,
        ],
        c.boundaries is None && meta.shard_boundaries is Some && meta.num_shards != Some(1usize)
            ==> r.shard_boundaries is Some && r.shard_boundaries->Some_0@
            == meta.shard_boundaries->Some_0@,
{
}

impl Compaction {
    /// The boundaries fit the shards: there are some where there is more than one
    /// shard, one more than there are shards, and they cover the centroids.
    pub open spec fn boundaries_fit(self, boundaries: Option<Vec<usize>>) -> bool {
        match (several(self.num_shards), boundaries) {
            (Some(n), Some(b)) => b@.len() == n + 1 && types::covers(b@, self.num_centroids as int),
            (None, None) => true,
            _ => false,
        }
    }

    /// Boundaries are taken exactly where they are for several shards, one more than
    /// these are, and go in order from the first centroid to the last; or where there
    /// are neither several shards nor boundaries.
    pub proof fn fitting_boundaries_cover(self, boundaries: Option<Vec<usize>>)
        ensures
            self.boundaries_fit(boundaries) <==> if self.num_shards is Some
                && self.num_shards->Some_0 > 1 {
                &&& boundaries is Some
                &&& boundaries->Some_0@.len() == self.num_shards->Some_0 + 1
                &&& boundaries->Some_0@[0] == 0
                &&& boundaries->Some_0@[self.num_shards->Some_0 as int] == self.num_centroids
                &&& forall|i: int, j: int|
                    0 <= i <= j < boundaries->Some_0@.len() ==> #[trigger] boundaries->Some_0@[i]
                        <= #[trigger] boundaries->Some_0@[j]
            } else {
                boundaries is None
            },
    {
    }

    /// There are boundaries only once the structures have been rebuilt, and then
    /// they fit.
    pub open spec fn wf(self) -> bool {
        match self.stage {
            CompactStage::Recalibrate | CompactStage::Save => self.boundaries_fit(self.boundaries),
            _ => self.boundaries is None,
        }
    }

    /// Starts with the chunks where passages are deleted or have been replaced,
    /// else with the centroids.
    pub fn start(meta: &IndexMetadata, deleted: &Tombstones, chunks: &Vec<ChunkDocs>) -> (r: Self)
        requires
            forall|c: int| 0 <= c < chunks@.len() ==> rewrite::docs_wf(#[trigger] chunks@[c]),
        ensures
            r.wf(),
            r.stage == (if deleted@ != Set::<i64>::empty() || exists|c: int, d: int|
                rewrite::is_stale(chunks@, c, d) {
                CompactStage::RewriteChunks
            } else {
                CompactStage::PruneCentroids
            }),
            r.num_chunks == meta.num_chunks,
            r.num_centroids == meta.num_centroids,
            r.num_shards == meta.num_shards,
            r.stats == (CompactStats { total_embeddings: 0, num_active_passages: 0 }),
            r.boundaries is None,
    {
        let rewrites: bool = !deleted.is_empty() || rewrite::has_stale_documents(chunks);
        Compaction {
            stage: if rewrites {
                CompactStage::RewriteChunks
            } else {
                CompactStage::PruneCentroids
            },
            num_chunks: meta.num_chunks,
            num_centroids: meta.num_centroids,
            num_shards: meta.num_shards,
            stats: CompactStats { total_embeddings: 0, num_active_passages: 0 },
            boundaries: None,
        }
    }

    /// The chunks were rewritten, and so many are left.
    pub fn rewritten(self, num_chunks: usize) -> (r: Self)
        requires
            self.wf(),
            self.stage == CompactStage::RewriteChunks,
        ensures
            r.wf(),
            r == (Compaction { stage: CompactStage::PruneCentroids, num_chunks, ..self }),
            r.num_chunks == num_chunks,
            r.num_centroids == self.num_centroids,
    {
        Compaction { stage: CompactStage::PruneCentroids, num_chunks, ..self }
    }

    /// Empty centroids were pruned, and so many are left; or none was empty.
    pub fn pruned(self, new_count: Option<usize>) -> (r: Self)
        requires
            self.wf(),
            self.stage == CompactStage::PruneCentroids,
        ensures
            r.wf(),
            r == (Compaction {
                stage: CompactStage::Rebuild,
                num_centroids: match new_count {
                    Some(n) => n,
                    None => self.num_centroids,
                },
                ..self
            }),
            new_count matches Some(n) ==> r.num_centroids == n,
            new_count is None ==> r.num_centroids == self.num_centroids,
            r.num_chunks == self.num_chunks,
    {
        let num_centroids: usize = match new_count {
            Some(n) => n,
            None => self.num_centroids,
        };
        Compaction { stage: CompactStage::Rebuild, num_centroids, ..self }
    }

    /// The number of shards to rebuild, where there is more than one.
    pub fn shards_to_rebuild(&self) -> (r: Option<usize>)
        ensures
            r == several(self.num_shards),
            r is Some <==> self.num_shards is Some && self.num_shards->Some_0 > 1,
            r is Some ==> r == self.num_shards,
    {
        match self.num_shards {
            Some(n) => if n > 1 {
                Some(n)
            } else {
                None
            },
            None => None,
        }
    }

    /// Whether boundaries fit the shards.
    pub fn can_take(&self, boundaries: &Option<Vec<usize>>) -> (r: bool)
        ensures
            r == self.boundaries_fit(*boundaries),
    {
        match (self.shards_to_rebuild(), boundaries) {
            (Some(n), Some(b)) => b.len() > n && b.len() - 1 == n && types::boundaries_cover(
                b,
                self.num_centroids,
            ),
            (None, None) => true,
            _ => false,
        }
    }

    /// The compacted structures were rebuilt, with new boundaries where there
    /// is more than one shard.
    pub fn rebuilt(self, stats: CompactStats, boundaries: Option<Vec<usize>>) -> (r: Self)
        requires
            self.wf(),
            self.stage == CompactStage::Rebuild,
            self.boundaries_fit(boundaries),
        ensures
            r.wf(),
            r == (Compaction { stage: CompactStage::Recalibrate, stats, boundaries, ..self }),
            r.stats.total_embeddings == stats.total_embeddings,
            r.stats.num_active_passages == stats.num_active_passages,
            r.boundaries == boundaries,
            r.num_chunks == self.num_chunks,
            r.num_centroids == self.num_centroids,
    {
        Compaction { stage: CompactStage::Recalibrate, stats, boundaries, ..self }
    }

    /// The threshold was recalibrated.
    pub fn recalibrated(self) -> (r: Self)
        requires
            self.wf(),
            self.stage == CompactStage::Recalibrate,
        ensures
            r.wf(),
            r == (Compaction { stage: CompactStage::Save, ..self }),
            r.stats == self.stats,
            r.boundaries == self.boundaries,
            r.num_chunks == self.num_chunks,
            r.num_centroids == self.num_centroids,
    {
        Compaction { stage: CompactStage::Save, ..self }
    }

    /// The metadata of the compacted index. Its boundaries are those of the
    /// centroids that are left.
    pub fn finish(self, meta: &IndexMetadata) -> (r: IndexMetadata)
        requires
            self.wf(),
            self.stage == CompactStage::Save,
            self.num_shards == meta.num_shards,
        ensures
            is_compacted(*meta, self, r),
            r.num_embeddings == self.stats.total_embeddings,
            r.num_passages == self.stats.num_active_passages,
            r.num_passages > 0 ==> r.avg_doclen == (AvgDoclen::Quotient {
                embeddings: r.num_embeddings,
                passages: r.num_passages,
            }),
            r.num_passages <= 0 ==> r.avg_doclen == AvgDoclen::Zero,
            r.num_chunks == self.num_chunks,
            r.num_centroids == self.num_centroids,
            r.next_passage_id == meta.next_passage_id,
            meta.shards_wf() ==> r.shards_wf(),
    {
        let shard_boundaries = match self.boundaries {
            Some(b) => Some(b),
            None => match (&meta.shard_boundaries, meta.num_shards) {
                (Some(_), Some(1)) => {
                    let mut b: Vec<usize> = Vec::new();
                    b.push(0);
                    b.push(self.num_centroids);
                    assert(b@ =~= seq![0usize, self.num_centroids]);
                    Some(b)
                },
                _ => types::copy_boundaries(&meta.shard_boundaries),
            },
        };
        IndexMetadata {
            num_chunks: self.num_chunks,
            num_centroids: self.num_centroids,
            num_embeddings: self.stats.total_embeddings,
            num_passages: self.stats.num_active_passages,
            avg_doclen: average_doclen(&self.stats),
            next_passage_id: meta.next_passage_id,
            nbits: meta.nbits,
            num_partitions: meta.num_partitions,
            dim: meta.dim,
            created_at: meta.created_at.clone(),
            num_shards: meta.num_shards,
            shard_boundaries,
        }
    }
}

/// One chunk's data, followed by another's.
pub open spec fn is_joined(old: ChunkData, new: ChunkData, r: ChunkData) -> bool {
    &&& r.codes@ == old.codes@ + new.codes@
    &&& r.residuals@ == old.residuals@ + new.residuals@
    &&& r.doclens@ == old.doclens@ + new.doclens@
    &&& r.pids@ == old.pids@ + new.pids@
}

/// The older documents stay first, with their embeddings, and the new ones follow;
/// nothing is lost of either.
pub proof fn joined_data_keeps_order(old: ChunkData, new: ChunkData, r: ChunkData)
    requires
        is_joined(old, new, r),
    ensures
        r.codes@.len() == old.codes@.len() + new.codes@.len(),
        r.residuals@.len() == old.residuals@.len() + new.residuals@.len(),
        r.doclens@.len() == old.doclens@.len() + new.doclens@.len(),
        r.pids@.len() == old.pids@.len() + new.pids@.len(),
        forall|i: int| 0 <= i < old.codes@.len() ==> #[trigger] r.codes@[i] == old.codes@[i],
        forall|i: int|
            0 <= i < old.residuals@.len() ==> #[trigger] r.residuals@[i] == old.residuals@[i],
        forall|i: int| 0 <= i < old.doclens@.len() ==> #[trigger] r.doclens@[i] == old.doclens@[i],
        forall|i: int| 0 <= i < old.pids@.len() ==> #[trigger] r.pids@[i] == old.pids@[i],
        forall|i: int|
            0 <= i < new.codes@.len() ==> r.codes@[old.codes@.len() + i] == #[trigger] new.codes@[i],
        forall|i: int|
            0 <= i < new.residuals@.len() ==> r.residuals@[old.residuals@.len() + i]
                == #[trigger] new.residuals@[i],
        forall|i: int|
            0 <= i < new.doclens@.len() ==> r.doclens@[old.doclens@.len() + i]
                == #[trigger] new.doclens@[i],
        forall|i: int|
            0 <= i < new.pids@.len() ==> r.pids@[old.pids@.len() + i] == #[trigger] new.pids@[i],
{
}

/// Prepend old chunk data to the chunk that was just encoded.
pub fn prepend_chunk_data(old: ChunkData, new: ChunkData) -> (r: (ChunkData, ChunkMeta))
    requires
        old.doclens@.len() + new.doclens@.len() <= usize::MAX,
        old.codes@.len() + new.codes@.len() <= usize::MAX,
    ensures
        is_joined(old, new, r.0),
        r.0.codes@.len() == old.codes@.len() + new.codes@.len(),
        r.0.doclens@.len() == old.doclens@.len() + new.doclens@.len(),
        r.1.num_passages == r.0.doclens@.len(),
        r.1.num_embeddings == r.0.codes@.len(),
        r.1 == (ChunkMeta {
            passage_offset: None,
            num_passages: (old.doclens@.len() + new.doclens@.len()) as usize,
            num_embeddings: (old.codes@.len() + new.codes@.len()) as usize,
            embedding_offset: 0,
        }),
{
    let num_passages: usize = old.doclens.len() + new.doclens.len();
    let num_embeddings: usize = old.codes.len() + new.codes.len();
    let mut codes = old.codes;
    let mut residuals = old.residuals;
    let mut doclens = old.doclens;
    let mut pids = old.pids;
    let mut new_codes = new.codes;
    let mut new_residuals = new.residuals;
    let mut new_doclens = new.doclens;
    let mut new_pids = new.pids;
    codes.append(&mut new_codes);
    residuals.append(&mut new_residuals);
    doclens.append(&mut new_doclens);
    pids.append(&mut new_pids);
    (
        ChunkData { codes, residuals, doclens, pids },
        ChunkMeta { passage_offset: None, num_passages, num_embeddings, embedding_offset: 0 },
    )
}

/// Whose sizes are extended for new centroids.
#[derive(Debug, Clone, Copy, PartialEq, Eq, Structural)]
pub enum AppendTarget {
    /// Nobody's: there are no new centroids
    Nothing,
    /// The last shard's
    LastShard(usize),
    /// Those of the whole index, and its offsets
    Whole,
}

/// The boundaries with the last shard extended by `k` centroids.
pub open spec fn extended_boundaries(boundaries: Seq<usize>, k: int) -> Seq<usize> {
    boundaries.update(boundaries.len() - 1, (boundaries.last() + k) as usize)
}

/// The metadata with `k` centroids more, which the last shard takes.
pub open spec fn is_appended(meta: IndexMetadata, k: usize, r: IndexMetadata) -> bool {
    &&& r.num_centroids == meta.num_centroids + k
    &&& match meta.shard_boundaries {
        Some(b) => r.shard_boundaries matches Some(e) && e@ == extended_boundaries(b@, k as int),
        None => r.shard_boundaries is None,
    }
    &&& r.num_chunks == meta.num_chunks
    &&& r.nbits == meta.nbits
    &&& r.num_partitions == meta.num_partitions
    &&& r.num_embeddings == meta.num_embeddings
    &&& r.avg_doclen == meta.avg_doclen
    &&& r.num_passages == meta.num_passages
    &&& r.next_passage_id == meta.next_passage_id
    &&& r.dim == meta.dim
    &&& r.created_at == meta.created_at
    &&& r.num_shards == meta.num_shards
}

/// The last shard, and no other, takes the new centroids; everything but the number
/// of centroids and the last boundary stays.
pub proof fn last_shard_takes_centroids(meta: IndexMetadata, k: usize, r: IndexMetadata)
    requires
        is_appended(meta, k, r),
        meta.shard_boundaries matches Some(b) ==> b@.len() >= 2 && b@.last() + k <= usize::MAX,
    ensures
        r.num_centroids == meta.num_centroids + k,
        meta.shard_boundaries is None ==> r.shard_boundaries is None,
        meta.shard_boundaries matches Some(b) ==> {
            let after = r.shard_boundaries->Some_0@;
            &&& r.shard_boundaries is Some
            &&& after.len() == b@.len()
            &&& forall|s: int| 0 <= s < b@.len() - 1 ==> #[trigger] after[s] == b@[s]
            &&& after[b@.len() - 1] == b@[b@.len() - 1] + k
        },
        r.num_chunks == meta.num_chunks,
        r.num_embeddings == meta.num_embeddings,
        r.num_passages == meta.num_passages,
        r.avg_doclen == meta.avg_doclen,
        r.next_passage_id == meta.next_passage_id,
        r.num_partitions == meta.num_partitions,
        r.nbits == meta.nbits,
        r.dim == meta.dim,
        r.created_at == meta.created_at,
        r.num_shards == meta.num_shards,
{
}

/// Append `k_new` centroids to the codebook: the metadata, and whose sizes are
/// to be extended.
pub fn append_centroids(meta: IndexMetadata, k_new: usize) -> (r: (IndexMetadata, AppendTarget))
    requires
        meta.num_centroids + k_new <= usize::MAX,
        meta.shard_boundaries matches Some(b) ==> b@.len() >= 2 && b@.last() + k_new <= usize::MAX,
    ensures
        k_new == 0 ==> r == (meta, AppendTarget::Nothing),
        k_new > 0 ==> is_appended(meta, k_new, r.0) && r.1 == (match meta.shard_boundaries {
            Some(b) => AppendTarget::LastShard((b@.len() - 2) as usize),
            None => AppendTarget::Whole,
        }),
        meta.shards_wf() ==> r.0.shards_wf(),
{
    if k_new == 0 {
        return (meta, AppendTarget::Nothing);
    }
    let num_centroids: usize = meta.num_centroids + k_new;
    match meta.shard_boundaries {
        Some(b) => {
            let mut boundaries = b;
            let last: usize = boundaries.len() - 1;
            let end: usize = boundaries[last] + k_new;
            // Extend last boundary
            boundaries.set(last, end);
            assert(boundaries@ =~= extended_boundaries(b@, k_new as int));
            (
                IndexMetadata {
                    num_chunks: meta.num_chunks,
                    nbits: meta.nbits,
                    num_partitions: meta.num_partitions,
                    num_embeddings: meta.num_embeddings,
                    avg_doclen: meta.avg_doclen,
                    num_passages: meta.num_passages,
                    next_passage_id: meta.next_passage_id,
                    num_centroids,
                    dim: meta.dim,
                    created_at: meta.created_at,
                    num_shards: meta.num_shards,
                    shard_boundaries: Some(boundaries),
                },
                AppendTarget::LastShard(last - 1),
            )
        },
        None => (
            IndexMetadata {
                num_chunks: meta.num_chunks,
                nbits: meta.nbits,
                num_partitions: meta.num_partitions,
                num_embeddings: meta.num_embeddings,
                avg_doclen: meta.avg_doclen,
                num_passages: meta.num_passages,
                next_passage_id: meta.next_passage_id,
                num_centroids,
                dim: meta.dim,
                created_at: meta.created_at,
                num_shards: meta.num_shards,
                shard_boundaries: None,
            },
            AppendTarget::Whole,
        ),
    }
}

/// A sequence with `k` times the same number after it.
pub open spec fn padded(s: Seq<i64>, k: int, filler: i64) -> Seq<i64> {
    s + Seq::new(k as nat, |i: int| filler)
}

/// Padding keeps what was there and puts the filler after it, `k` times.
pub proof fn padding_appends(s: Seq<i64>, k: int, filler: i64)
    requires
        0 <= k,
    ensures
        padded(s, k, filler).len() == s.len() + k,
        forall|i: int| 0 <= i < s.len() ==> #[trigger] padded(s, k, filler)[i] == s[i],
        forall|i: int|
            s.len() <= i < s.len() + k ==> #[trigger] padded(s, k, filler)[i] == filler,
{
}

fn pad(s: &Vec<i64>, k: usize, filler: i64) -> (r: Vec<i64>)
    ensures
        r@ == padded(s@, k as int, filler),
{
    let mut r: Vec<i64> = Vec::new();
    r.extend_from_slice(s.as_slice());
    assert(r@ =~= padded(s@, 0, filler));
    let mut i: usize = 0;
    while i < k
        invariant
            i <= k,
            r@ == padded(s@, i as int, filler),
        decreases k - i,
    {
        r.push(filler);
        i += 1;
        assert(r@ =~= padded(s@, i as int, filler));
    }
    r
}

/// The sizes with `k_new` empty centroids after them.
pub fn extend_sizes(sizes: &Vec<i64>, k_new: usize) -> (r: Vec<i64>)
    ensures
        r@ == padded(sizes@, k_new as int, 0),
        r@.len() == sizes@.len() + k_new,
        forall|c: int| 0 <= c < sizes@.len() ==> #[trigger] r@[c] == sizes@[c],
        forall|c: int| sizes@.len() <= c < r@.len() ==> #[trigger] r@[c] == 0,
{
    pad(sizes, k_new, 0)
}

/// The offsets with `k_new` empty centroids after them.
pub fn extend_offsets(offsets: &Vec<i64>, k_new: usize) -> (r: Vec<i64>)
    requires
        0 < offsets@.len(),
    ensures
        r@ == padded(offsets@, k_new as int, offsets@.last()),
        r@.len() == offsets@.len() + k_new,
        forall|c: int| 0 <= c < offsets@.len() ==> #[trigger] r@[c] == offsets@[c],
        forall|c: int|
            offsets@.len() <= c < r@.len() ==> #[trigger] r@[c] == offsets@[offsets@.len() - 1],
{
    let total: i64 = offsets[offsets.len() - 1];
    pad(offsets, k_new, total)
}

proof fn padded_sums(sizes: Seq<i64>, k: int, n: int)
    requires
        0 <= k,
        0 <= n <= sizes.len() + k,
    ensures
        types::range_sum(padded(sizes, k, 0), 0, n) == types::range_sum(
            sizes,
            0,
            if n < sizes.len() {
                n
            } else {
                sizes.len() as int
            },
        ),
    decreases n,
{
    if 0 < n {
        padded_sums(sizes, k, n - 1);
    }
}

/// Extending the offsets gives the offsets of the extended sizes.
pub proof fn extended_offsets_agree(sizes: Seq<i64>, k: int)
    requires
        0 <= k,
        loader::sums_fit(sizes),
    ensures
        loader::offsets_of(padded(sizes, k, 0)) == padded(
            loader::offsets_of(sizes),
            k,
            loader::offsets_of(sizes).last(),
        ),
{
    let a = loader::offsets_of(padded(sizes, k, 0));
    let b = padded(loader::offsets_of(sizes), k, loader::offsets_of(sizes).last());
    assert forall|i: int| 0 <= i < a.len() implies a[i] == b[i] by {
        padded_sums(sizes, k, i);
    }
    assert(a =~= b);
}

/// The extended boundaries cover the old and the new centroids.
pub proof fn extended_boundaries_cover(boundaries: Seq<usize>, num_centroids: int, k: int)
    requires
        types::covers(boundaries, num_centroids),
        0 <= k,
        num_centroids + k <= usize::MAX,
    ensures
        types::covers(extended_boundaries(boundaries, k), num_centroids + k),
{
}

} // verus!
