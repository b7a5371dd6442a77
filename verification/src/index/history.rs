//! What holds of an index over any sequence of changes to it.

use crate::index::encode::ChunkData;
use crate::index::update;
use crate::index::update::{AddPlan, CompactStage, Compaction};
use crate::utils::types::{CompactStats, IndexMetadata};
use vstd::prelude::*;

verus! {

/// A change to an index.
pub enum Change {
    /// Documents were added
    Add { num_docs: usize, num_chunks: usize, stats: CompactStats },
    /// Documents were replaced
    Update { num_chunks: usize, stats: CompactStats },
    /// Passages were marked as deleted
    Delete,
    /// Centroids were appended
    AppendCentroids { count: usize },
    /// The index was compacted
    Compact { compaction: Compaction },
}

/// The change took the metadata from `before` to `after`.
pub open spec fn changed(change: Change, before: IndexMetadata, after: IndexMetadata) -> bool {
    match change {
        Change::Add { num_docs, num_chunks, stats } => before.next_passage_id + num_docs <= i64::MAX
            && update::is_updated(
            before,
            stats,
            num_chunks,
            (before.next_passage_id + num_docs) as i64,
            after,
        ),
        Change::Update { num_chunks, stats } => update::is_updated(
            before,
            stats,
            num_chunks,
            before.next_passage_id,
            after,
        ),
        Change::Delete => after.same_as(before),
        Change::AppendCentroids { count } => before.num_centroids + count <= usize::MAX && if count
            == 0 {
            after.same_as(before)
        } else {
            update::is_appended(before, count, after)
        },
        Change::Compact { compaction } => compaction.wf() && compaction.stage == CompactStage::Save
            && compaction.num_shards == before.num_shards && update::is_compacted(
            before,
            compaction,
            after,
        ),
    }
}

/// The metadata went through `states`, by one change after the other.
pub open spec fn is_history(changes: Seq<Change>, states: Seq<IndexMetadata>) -> bool {
    &&& states.len() == changes.len() + 1
    &&& forall|i: int|
        0 <= i < changes.len() ==> changed(#[trigger] changes[i], states[i], states[i + 1])
}

/// The IDs that a change assigned: those of an addition.
pub open spec fn assigned(changes: Seq<Change>, states: Seq<IndexMetadata>, i: int) -> Seq<i64> {
    match changes[i] {
        Change::Add { num_docs, .. } => update::fresh_ids(
            states[i].next_passage_id as int,
            num_docs as int,
        ),
        _ => Seq::empty(),
    }
}

/// The watermark for passage IDs never falls.
pub proof fn watermark_never_falls(
    changes: Seq<Change>,
    states: Seq<IndexMetadata>,
    i: int,
    j: int,
)
    requires
        is_history(changes, states),
        0 <= i <= j < states.len(),
    ensures
        states[i].next_passage_id <= states[j].next_passage_id,
    decreases j - i,
{
    if i < j {
        watermark_never_falls(changes, states, i, j - 1);
        assert(changed(changes[j - 1], states[j - 1], states[j]));
    }
}

/// The IDs that an addition assigns lie above all that were assigned before,
/// whatever deletions, updates, appended centroids and compactions came between,
/// and they are different. An ID is thus never assigned again, even after its
/// passage was deleted and compacted away.
pub proof fn assigned_ids_rise(changes: Seq<Change>, states: Seq<IndexMetadata>, i: int, j: int)
    requires
        is_history(changes, states),
        0 <= i < j < changes.len(),
    ensures
        forall|a: int, b: int|
            #![trigger assigned(changes, states, i)[a], assigned(changes, states, j)[b]]
            0 <= a < assigned(changes, states, i).len() && 0 <= b < assigned(
                changes,
                states,
                j,
            ).len() ==> assigned(changes, states, i)[a] < assigned(changes, states, j)[b],
        assigned(changes, states, j).no_duplicates(),
{
    assert(changed(changes[i], states[i], states[i + 1]));
    assert(changed(changes[j], states[j], states[j + 1]));
    watermark_never_falls(changes, states, i + 1, j);
}

/// The boundaries of the shards stay those of the centroids over any changes.
pub proof fn shards_stay_covered(changes: Seq<Change>, states: Seq<IndexMetadata>, i: int)
    requires
        is_history(changes, states),
        states[0].shards_wf(),
        0 <= i < states.len(),
    ensures
        states[i].shards_wf(),
    decreases i,
{
    if 0 < i {
        shards_stay_covered(changes, states, i - 1);
        let (before, after) = (states[i - 1], states[i]);
        assert(changed(changes[i - 1], before, after));
        if let Change::AppendCentroids { count } = changes[i - 1] {
            if let Some(b) = before.shard_boundaries {
                update::extended_boundaries_cover(
                    b@,
                    before.num_centroids as int,
                    count as int,
                );
            }
        }
    }
}

/// The codes of all chunks.
pub open spec fn all_codes(chunks: Seq<ChunkData>) -> Seq<i64> {
    chunks.map_values(|c: ChunkData| c.codes@).flatten()
}

/// The packed residuals of all chunks.
pub open spec fn all_residuals(chunks: Seq<ChunkData>) -> Seq<Vec<u8>> {
    chunks.map_values(|c: ChunkData| c.residuals@).flatten()
}

/// The lengths of the documents of all chunks.
pub open spec fn all_doclens(chunks: Seq<ChunkData>) -> Seq<i64> {
    chunks.map_values(|c: ChunkData| c.doclens@).flatten()
}

/// The IDs of the documents of all chunks.
pub open spec fn all_pids(chunks: Seq<ChunkData>) -> Seq<i64> {
    chunks.map_values(|c: ChunkData| c.pids@).flatten()
}

/// The chunks once the encoded ones are in their places: after the chunks that
/// were there, the first of them joined to the last chunk where the plan says so.
pub open spec fn chunks_after(
    plan: AddPlan,
    chunks: Seq<ChunkData>,
    encoded: Seq<ChunkData>,
    after: Seq<ChunkData>,
) -> bool {
    if plan.coalesce {
        &&& after.len() == plan.start_chunk_idx + encoded.len()
        &&& after.take(plan.start_chunk_idx as int) == chunks.take(plan.start_chunk_idx as int)
        &&& update::is_joined(
            chunks[plan.start_chunk_idx as int],
            encoded[0],
            after[plan.start_chunk_idx as int],
        )
        &&& after.skip(plan.start_chunk_idx + 1) == encoded.skip(1)
    } else {
        after == chunks + encoded
    }
}

proof fn coalesced_parts_follow<T>(
    chunks: Seq<Seq<T>>,
    encoded: Seq<Seq<T>>,
    after: Seq<Seq<T>>,
    start: int,
)
    requires
        0 <= start,
        chunks.len() == start + 1,
        0 < encoded.len(),
        after.len() == start + encoded.len(),
        after.take(start) == chunks.take(start),
        after[start] == chunks[start] + encoded[0],
        after.skip(start + 1) == encoded.skip(1),
    ensures
        after.flatten() == chunks.flatten() + encoded.flatten(),
{
    let head = chunks.take(start);
    let tail = encoded.skip(1);
    let middle = seq![after[start]];
    assert(after =~= (head + middle) + tail);
    vstd::seq_lib::lemma_flatten_concat(head + middle, tail);
    vstd::seq_lib::lemma_flatten_concat(head, middle);
    assert(chunks =~= head + seq![chunks[start]]);
    vstd::seq_lib::lemma_flatten_concat(head, seq![chunks[start]]);
    assert(encoded =~= seq![encoded[0]] + tail);
    vstd::seq_lib::lemma_flatten_concat(seq![encoded[0]], tail);
    seq![after[start]].lemma_flatten_one_element();
    seq![chunks[start]].lemma_flatten_one_element();
    seq![encoded[0]].lemma_flatten_one_element();
    assert(after.flatten() =~= chunks.flatten() + encoded.flatten());
}

/// An addition leaves old data untouched: the documents that were there are
/// followed by the added ones, in their order, whether or not the last chunk took
/// some of them. As many chunks are there as the saved metadata says, no fewer
/// than before; and where there is nothing to add, the chunks stay as they are.
pub proof fn added_documents_follow(
    plan: AddPlan,
    meta: IndexMetadata,
    chunks: Seq<ChunkData>,
    encoded: Seq<ChunkData>,
    after: Seq<ChunkData>,
)
    requires
        plan.extends(meta),
        chunks.len() == meta.num_chunks,
        plan.new_passage_ids@.len() > 0 ==> 0 < encoded.len(),
        chunks_after(plan, chunks, encoded, after),
    ensures
        all_codes(after) == all_codes(chunks) + all_codes(encoded),
        all_residuals(after) == all_residuals(chunks) + all_residuals(encoded),
        all_doclens(after) == all_doclens(chunks) + all_doclens(encoded),
        all_pids(after) == all_pids(chunks) + all_pids(encoded),
        after.len() == plan.start_chunk_idx + encoded.len(),
        chunks.len() <= after.len(),
        encoded.len() == 0 ==> after == chunks,
{
    let codes = |c: ChunkData| c.codes@;
    let residuals = |c: ChunkData| c.residuals@;
    let doclens = |c: ChunkData| c.doclens@;
    let pids = |c: ChunkData| c.pids@;
    if plan.coalesce {
        let start = plan.start_chunk_idx as int;
        mapped_places(chunks, encoded, after, start, codes);
        mapped_places(chunks, encoded, after, start, residuals);
        mapped_places(chunks, encoded, after, start, doclens);
        mapped_places(chunks, encoded, after, start, pids);
    } else {
        mapped_concat(chunks, encoded, codes);
        mapped_concat(chunks, encoded, residuals);
        mapped_concat(chunks, encoded, doclens);
        mapped_concat(chunks, encoded, pids);
        if encoded.len() == 0 {
            assert(chunks + encoded =~= chunks);
        }
    }
}

proof fn mapped_places<T>(
    chunks: Seq<ChunkData>,
    encoded: Seq<ChunkData>,
    after: Seq<ChunkData>,
    start: int,
    part: spec_fn(ChunkData) -> Seq<T>,
)
    requires
        0 <= start,
        chunks.len() == start + 1,
        0 < encoded.len(),
        after.len() == start + encoded.len(),
        after.take(start) == chunks.take(start),
        part(after[start]) == part(chunks[start]) + part(encoded[0]),
        after.skip(start + 1) == encoded.skip(1),
    ensures
        after.map_values(part).flatten() == chunks.map_values(part).flatten()
            + encoded.map_values(part).flatten(),
{
    let (c, e, a) = (chunks.map_values(part), encoded.map_values(part), after.map_values(part));
    assert(a.take(start) =~= after.take(start).map_values(part));
    assert(c.take(start) =~= chunks.take(start).map_values(part));
    assert(a.skip(start + 1) =~= after.skip(start + 1).map_values(part));
    assert(e.skip(1) =~= encoded.skip(1).map_values(part));
    coalesced_parts_follow(c, e, a, start);
}

proof fn mapped_concat<T>(
    chunks: Seq<ChunkData>,
    encoded: Seq<ChunkData>,
    part: spec_fn(ChunkData) -> Seq<T>,
)
    ensures
        (chunks + encoded).map_values(part).flatten() == chunks.map_values(part).flatten()
            + encoded.map_values(part).flatten(),
{
    assert((chunks + encoded).map_values(part) =~= chunks.map_values(part) + encoded.map_values(
        part,
    ));
    vstd::seq_lib::lemma_flatten_concat(chunks.map_values(part), encoded.map_values(part));
}

} // verus!
