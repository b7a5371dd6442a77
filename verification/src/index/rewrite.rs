//! Removal of deleted and replaced passages from the chunks of an index.

use crate::index::encode;
use crate::index::encode::{ChunkData, EncodedChunk};
use crate::index::files;
use crate::index::files::ChunkMeta;
use crate::search::tombstones;
use crate::search::tombstones::Tombstones;
use crate::utils::types;
use std::collections::HashSet;
use vstd::prelude::*;

verus! {

broadcast use vstd::std_specs::hash::group_hash_axioms;

/// The documents of a chunk: the length and the ID of each.
pub struct ChunkDocs {
    pub doclens: Vec<i64>,
    pub pids: Vec<i64>,
}

/// What is kept of a chunk: the lengths and IDs of the documents that are not
/// dropped, and the rows of their embeddings.
pub struct KeptChunk {
    pub old_idx: usize,
    pub doclens: Vec<i64>,
    pub pids: Vec<i64>,
    pub rows: Vec<i64>,
}

/// Every document has an ID, and the lengths can be summed up.
pub open spec fn docs_wf(docs: ChunkDocs) -> bool {
    &&& docs.doclens@.len() <= docs.pids@.len()
    &&& encode::rows_fit(docs.doclens@)
}

/// The rows of a document's embeddings.
pub open spec fn doc_rows(doclens: Seq<i64>, d: int) -> Seq<i64> {
    Seq::new(
        doclens[d] as nat,
        |i: int| (types::range_sum(doclens, 0, d) + i) as i64,
    )
}

/// The rows of those of the first `n` documents that are not dropped.
pub open spec fn kept_rows(
    doclens: Seq<i64>,
    pids: Seq<i64>,
    dropped: Set<i64>,
    n: int,
) -> Seq<i64>
    decreases n,
{
    if n <= 0 {
        Seq::empty()
    } else if dropped.contains(pids[n - 1]) {
        kept_rows(doclens, pids, dropped, n - 1)
    } else {
        kept_rows(doclens, pids, dropped, n - 1) + doc_rows(doclens, n - 1)
    }
}

/// The documents of a chunk that are not dropped.
pub open spec fn kept_docs(docs: ChunkDocs, dropped: Set<i64>) -> Seq<int> {
    tombstones::surviving(docs.pids@, dropped, docs.doclens@.len() as int)
}

/// `kept` is what is left of the documents.
pub open spec fn is_kept(docs: ChunkDocs, dropped: Set<i64>, kept: KeptChunk) -> bool {
    &&& kept.doclens@ == tombstones::at(docs.doclens@, kept_docs(docs, dropped))
    &&& kept.pids@ == tombstones::at(docs.pids@, kept_docs(docs, dropped))
    &&& kept.rows@ == kept_rows(
        docs.doclens@,
        docs.pids@,
        dropped,
        docs.doclens@.len() as int,
    )
}

/// What is left of a chunk without its deleted documents, and without those that
/// later chunks hold too.
pub fn filter_chunk(
    old_idx: usize,
    docs: &ChunkDocs,
    deleted: &Tombstones,
    later: &HashSet<i64>,
) -> (r: KeptChunk)
    requires
        docs_wf(*docs),
    ensures
        r.old_idx == old_idx,
        is_kept(*docs, deleted@.union(later@), r),
{
    let ghost dropped = deleted@.union(later@);
    let mut doclens: Vec<i64> = Vec::new();
    let mut pids: Vec<i64> = Vec::new();
    let mut rows: Vec<i64> = Vec::new();
    let mut emb_offset: i64 = 0;
    let n: usize = docs.doclens.len();
    let mut d: usize = 0;
    while d < n
        invariant
            d <= n,
            n == docs.doclens@.len(),
            docs_wf(*docs),
            dropped == deleted@.union(later@),
            emb_offset == types::range_sum(docs.doclens@, 0, d as int),
            doclens@ == tombstones::at(
                docs.doclens@,
                tombstones::surviving(docs.pids@, dropped, d as int),
            ),
            pids@ == tombstones::at(
                docs.pids@,
                tombstones::surviving(docs.pids@, dropped, d as int),
            ),
            rows@ == kept_rows(docs.doclens@, docs.pids@, dropped, d as int),
        decreases n - d,
    {
        let pid: i64 = docs.pids[d];
        let doc_len: i64 = docs.doclens[d];
        proof {
            encode::part_sums(docs.doclens@, 0, d as int, n as int);
            encode::part_sums(docs.doclens@, 0, d + 1, n as int);
        }
        if !deleted.contains(pid) && !later.contains(&pid) {
            pids.push(pid);
            doclens.push(doc_len);
            let ghost before = rows@;
            let ghost own = doc_rows(docs.doclens@, d as int);
            let mut i: i64 = 0;
            assert(before + own.take(0) =~= before);
            while i < doc_len
                invariant
                    0 <= i <= doc_len,
                    d < docs.doclens@.len(),
                    doc_len == docs.doclens@[d as int],
                    emb_offset + doc_len <= i64::MAX,
                    0 <= emb_offset,
                    emb_offset == types::range_sum(docs.doclens@, 0, d as int),
                    own == doc_rows(docs.doclens@, d as int),
                    rows@ == before + own.take(i as int),
                decreases doc_len - i,
            {
                rows.push(emb_offset + i);
                assert(own[i as int] == emb_offset + i);
                i += 1;
                assert(rows@ =~= before + own.take(i as int));
            }
            assert(own.take(doc_len as int) =~= own);
        }
        emb_offset = emb_offset + doc_len;
        d += 1;
        assert(doclens@ =~= tombstones::at(
            docs.doclens@,
            tombstones::surviving(docs.pids@, dropped, d as int),
        ));
        assert(pids@ =~= tombstones::at(
            docs.pids@,
            tombstones::surviving(docs.pids@, dropped, d as int),
        ));
    }
    KeptChunk { old_idx, doclens, pids, rows }
}

/// Row `i` of document `k`, where documents of the given lengths follow each other.
pub open spec fn row_at(rows: Seq<i64>, doclens: Seq<i64>, k: int, i: int) -> i64 {
    rows[types::range_sum(doclens, 0, k) + i]
}

/// The rows of the kept documents follow each other, each document's in their order.
pub open spec fn laid_out(
    doclens: Seq<i64>,
    kept: Seq<int>,
    new_doclens: Seq<i64>,
    rows: Seq<i64>,
) -> bool {
    &&& rows.len() == types::range_sum(new_doclens, 0, new_doclens.len() as int)
    &&& forall|k: int, i: int|
        0 <= k < kept.len() && 0 <= i < new_doclens[k] ==> #[trigger] row_at(
            rows,
            new_doclens,
            k,
            i,
        ) == types::range_sum(doclens, 0, kept[k]) + i
}

proof fn kept_rows_laid_out(docs: ChunkDocs, dropped: Set<i64>, n: int)
    requires
        docs_wf(docs),
        0 <= n <= docs.doclens@.len(),
    ensures
        laid_out(
            docs.doclens@,
            tombstones::surviving(docs.pids@, dropped, n),
            tombstones::at(docs.doclens@, tombstones::surviving(docs.pids@, dropped, n)),
            kept_rows(docs.doclens@, docs.pids@, dropped, n),
        ),
    decreases n,
{
    if 0 < n {
        kept_rows_laid_out(docs, dropped, n - 1);
        let doclens = docs.doclens@;
        let before = tombstones::surviving(docs.pids@, dropped, n - 1);
        let kept = tombstones::surviving(docs.pids@, dropped, n);
        let lens_before = tombstones::at(doclens, before);
        let lens = tombstones::at(doclens, kept);
        let rows_before = kept_rows(doclens, docs.pids@, dropped, n - 1);
        let rows = kept_rows(doclens, docs.pids@, dropped, n);
        if !dropped.contains(docs.pids@[n - 1]) {
            let m = before.len() as int;
            tombstones::surviving_inside(docs.pids@, dropped, n - 1);
            assert(0 <= doclens[n - 1]);
            encode::part_sums(doclens, 0, n - 1, doclens.len() as int);
            encode::part_sums(doclens, 0, n, doclens.len() as int);
            assert(lens =~= lens_before.push(doclens[n - 1]));
            same_prefix_sums(lens_before, lens, m);
            assert forall|k: int, i: int| 0 <= k < kept.len() && 0 <= i < lens[k] implies
                #[trigger] row_at(rows, lens, k, i) == types::range_sum(doclens, 0, kept[k])
                + i by {
                let at = types::range_sum(lens, 0, k) + i;
                if k < m {
                    same_prefix_sums(lens_before, lens, k);
                    same_prefix_sums(lens_before, lens, k + 1);
                    assert(lens_before[k] == lens[k]);
                    assert forall|d: int| 0 <= d < lens_before.len() implies 0
                        <= #[trigger] lens_before[d] by {
                        assert(0 <= doclens[before[d]]);
                    }
                    encode::part_sums(lens_before, 0, k, m);
                    encode::part_sums(lens_before, 0, k + 1, m);
                    assert(row_at(rows_before, lens_before, k, i) == types::range_sum(
                        doclens,
                        0,
                        before[k],
                    ) + i);
                    assert(rows[at] == rows_before[at]);
                } else {
                    assert(rows[at] == doc_rows(doclens, n - 1)[i]);
                }
            }
        }
    }
}

proof fn same_prefix_sums(a: Seq<i64>, b: Seq<i64>, n: int)
    requires
        0 <= n <= a.len(),
        n <= b.len(),
        forall|i: int| 0 <= i < n ==> a[i] == #[trigger] b[i],
    ensures
        types::range_sum(a, 0, n) == types::range_sum(b, 0, n),
    decreases n,
{
    if 0 < n {
        same_prefix_sums(a, b, n - 1);
    }
}

/// A filtered chunk holds exactly the documents that are not dropped, in their
/// order, with as many rows as their lengths say; and each keeps its
/// embeddings: the rows at its new place are the rows it had.
pub proof fn filtering_keeps_documents(docs: ChunkDocs, dropped: Set<i64>, kept: KeptChunk)
    requires
        docs_wf(docs),
        is_kept(docs, dropped, kept),
    ensures
        forall|k: int| 0 <= k < kept.pids@.len() ==> !dropped.contains(#[trigger] kept.pids@[k]),
        forall|d: int|
            0 <= d < docs.doclens@.len() && !dropped.contains(#[trigger] docs.pids@[d])
                ==> kept.pids@.contains(docs.pids@[d]),
        laid_out(docs.doclens@, kept_docs(docs, dropped), kept.doclens@, kept.rows@),
{
    let n = docs.doclens@.len() as int;
    tombstones::surviving_inside(docs.pids@, dropped, n);
    kept_rows_laid_out(docs, dropped, n);
    let own = kept_docs(docs, dropped);
    assert forall|d: int| 0 <= d < n && !dropped.contains(#[trigger] docs.pids@[d]) implies
        kept.pids@.contains(docs.pids@[d]) by {
        assert(own.contains(d));
        let k = choose|k: int| 0 <= k < own.len() && own[k] == d;
        assert(kept.pids@[k] == docs.pids@[d]);
    }
}

/// `starts` are the rows where documents of the given lengths start, one after the
/// other, and the row where the last one ends.
pub open spec fn row_starts(doclens: Seq<i64>, starts: Seq<int>) -> bool {
    &&& starts.len() == doclens.len() + 1
    &&& starts[0] == 0
    &&& forall|d: int| 0 <= d < doclens.len() ==> starts[d + 1] == starts[d] + #[trigger] doclens[d]
}

proof fn starts_are_sums(doclens: Seq<i64>, starts: Seq<int>, d: int)
    requires
        row_starts(doclens, starts),
        0 <= d <= doclens.len(),
    ensures
        types::range_sum(doclens, 0, d) == starts[d],
    decreases d,
{
    if 0 < d {
        starts_are_sums(doclens, starts, d - 1);
        assert(starts[d] == starts[d - 1] + doclens[d - 1]);
    }
}

/// What is left of a chunk are the documents at ascending positions, each with its
/// own ID, length and embeddings. A document is passed over exactly where its ID is
/// dropped.
pub proof fn kept_documents_keep_rows(
    docs: ChunkDocs,
    dropped: Set<i64>,
    kept: KeptChunk,
    starts: Seq<int>,
    new_starts: Seq<int>,
) -> (picked: Seq<int>)
    requires
        docs_wf(docs),
        is_kept(docs, dropped, kept),
        row_starts(docs.doclens@, starts),
        row_starts(kept.doclens@, new_starts),
    ensures
        picked.len() == kept.pids@.len(),
        picked.len() == kept.doclens@.len(),
        kept.rows@.len() == new_starts[picked.len() as int],
        forall|k: int|
            0 <= k < picked.len() ==> 0 <= #[trigger] picked[k] < docs.doclens@.len()
                && kept.pids@[k] == docs.pids@[picked[k]] && kept.doclens@[k]
                == docs.doclens@[picked[k]] && !dropped.contains(kept.pids@[k]),
        forall|j: int, k: int|
            0 <= j < k < picked.len() ==> #[trigger] picked[j] < #[trigger] picked[k],
        forall|d: int|
            0 <= d < docs.doclens@.len() && !picked.contains(d) ==> dropped.contains(
                #[trigger] docs.pids@[d],
            ),
        forall|k: int, i: int|
            #![trigger kept.rows@[new_starts[k] + i]]
            0 <= k < picked.len() && 0 <= i < kept.doclens@[k] ==> kept.rows@[new_starts[k] + i]
                == starts[picked[k]] + i,
{
    let n = docs.doclens@.len() as int;
    let picked = kept_docs(docs, dropped);
    tombstones::surviving_inside(docs.pids@, dropped, n);
    filtering_keeps_documents(docs, dropped, kept);
    starts_are_sums(kept.doclens@, new_starts, kept.doclens@.len() as int);
    assert forall|k: int, i: int|
        #![trigger kept.rows@[new_starts[k] + i]]
        0 <= k < picked.len() && 0 <= i < kept.doclens@[k] implies kept.rows@[new_starts[k] + i]
        == starts[picked[k]] + i by {
        starts_are_sums(kept.doclens@, new_starts, k);
        starts_are_sums(docs.doclens@, starts, picked[k]);
        assert(row_at(kept.rows@, kept.doclens@, k, i) == types::range_sum(
            docs.doclens@,
            0,
            picked[k],
        ) + i);
    }
    picked
}

/// A document of the chunk has the ID.
pub open spec fn holds_id(docs: ChunkDocs, pid: i64) -> bool {
    exists|d: int| 0 <= d < docs.doclens@.len() && #[trigger] docs.pids@[d] == pid
}

/// One of the chunks from `c` on holds the ID.
pub open spec fn held_from(chunks: Seq<ChunkDocs>, c: int, pid: i64) -> bool {
    exists|b: int| c <= b < chunks.len() && #[trigger] holds_id(chunks[b], pid)
}

/// The IDs whose documents are dropped from chunk `c`: those that are deleted,
/// and those that a later chunk holds, which has replaced them.
pub open spec fn dropped(chunks: Seq<ChunkDocs>, deleted: Set<i64>, c: int) -> Set<i64> {
    Set::new(|p: i64| deleted.contains(p) || held_from(chunks, c + 1, p))
}

/// The chunks, among the first `n`, of which something is kept.
pub open spec fn kept_chunks(chunks: Seq<ChunkDocs>, deleted: Set<i64>, n: int) -> Seq<int>
    decreases n,
{
    if n <= 0 {
        Seq::empty()
    } else if kept_docs(chunks[n - 1], dropped(chunks, deleted, n - 1)).len() > 0 {
        kept_chunks(chunks, deleted, n - 1).push(n - 1)
    } else {
        kept_chunks(chunks, deleted, n - 1)
    }
}

/// What is left of the chunks of which something is kept, in their order.
pub open spec fn is_plan(
    chunks: Seq<ChunkDocs>,
    deleted: Set<i64>,
    n: int,
    plan: Seq<KeptChunk>,
) -> bool {
    let kept = kept_chunks(chunks, deleted, n);
    &&& plan.len() == kept.len()
    &&& forall|j: int|
        0 <= j < plan.len() ==> (#[trigger] plan[j]).old_idx == kept[j] && is_kept(
            chunks[kept[j]],
            dropped(chunks, deleted, kept[j]),
            plan[j],
        )
}

proof fn kept_chunks_hold(chunks: Seq<ChunkDocs>, deleted: Set<i64>, n: int)
    requires
        0 <= n <= chunks.len(),
    ensures
        ({
            let kept = kept_chunks(chunks, deleted, n);
            &&& forall|j: int|
                0 <= j < kept.len() ==> 0 <= #[trigger] kept[j] < n && kept_docs(
                    chunks[kept[j]],
                    dropped(chunks, deleted, kept[j]),
                ).len() > 0
            &&& forall|i: int, j: int|
                0 <= i < j < kept.len() ==> #[trigger] kept[i] < #[trigger] kept[j]
            &&& forall|c: int|
                0 <= c < n && kept_docs(#[trigger] chunks[c], dropped(chunks, deleted, c)).len() > 0
                    ==> kept.contains(c)
        }),
    decreases n,
{
    if 0 < n {
        kept_chunks_hold(chunks, deleted, n - 1);
        let before = kept_chunks(chunks, deleted, n - 1);
        let kept = kept_chunks(chunks, deleted, n);
        assert forall|c: int|
            0 <= c < n && kept_docs(#[trigger] chunks[c], dropped(chunks, deleted, c)).len()
                > 0 implies kept.contains(c) by {
            if c < n - 1 {
                assert(before.contains(c));
                let j = choose|j: int| 0 <= j < before.len() && before[j] == c;
                assert(kept[j] == c);
            } else {
                assert(kept[kept.len() - 1] == c);
            }
        }
    }
}

/// The passage is in what is left of the chunk.
pub open spec fn in_plan(plan: Seq<KeptChunk>, chunk: int, pid: i64) -> bool {
    exists|j: int|
        0 <= j < plan.len() && (#[trigger] plan[j]).old_idx == chunk && plan[j].pids@.contains(pid)
}

/// Of a chunk of which something is kept, what is left is in the plan.
proof fn kept_is_planned(
    chunks: Seq<ChunkDocs>,
    deleted: Set<i64>,
    plan: Seq<KeptChunk>,
    c: int,
    d: int,
) -> (j: int)
    requires
        forall|b: int| 0 <= b < chunks.len() ==> docs_wf(#[trigger] chunks[b]),
        is_plan(chunks, deleted, chunks.len() as int, plan),
        0 <= c < chunks.len(),
        0 <= d < chunks[c].doclens@.len(),
        !dropped(chunks, deleted, c).contains(chunks[c].pids@[d]),
    ensures
        0 <= j < plan.len(),
        plan[j].old_idx == c,
        is_kept(chunks[c], dropped(chunks, deleted, c), plan[j]),
        plan[j].pids@.contains(chunks[c].pids@[d]),
{
    let kept = kept_chunks(chunks, deleted, chunks.len() as int);
    let docs = chunks[c];
    let gone = dropped(chunks, deleted, c);
    kept_chunks_hold(chunks, deleted, chunks.len() as int);
    tombstones::surviving_inside(docs.pids@, gone, docs.doclens@.len() as int);
    assert(kept_docs(docs, gone).contains(d));
    assert(kept_docs(chunks[c], gone).len() > 0);
    assert(kept.contains(c));
    let j = choose|j: int| 0 <= j < kept.len() && kept[j] == c;
    assert(plan[j].old_idx == kept[j]);
    filtering_keeps_documents(docs, gone, plan[j]);
    j
}

/// The last of the chunks from `c` to `n` that holds an ID.
proof fn last_holder(chunks: Seq<ChunkDocs>, c: int, n: int, pid: i64) -> (b: int)
    requires
        0 <= c < n <= chunks.len(),
        holds_id(chunks[c], pid),
    ensures
        c <= b < n,
        holds_id(chunks[b], pid),
        forall|e: int| b < e < n ==> !#[trigger] holds_id(chunks[e], pid),
    decreases n - c,
{
    if holds_id(chunks[n - 1], pid) {
        n - 1
    } else {
        last_holder(chunks, c, n - 1, pid)
    }
}

/// Rewriting loses nothing but what is deleted or replaced. The chunks that are
/// left keep their order, none is empty, and none holds a deleted passage. A
/// document is left exactly where it is not deleted and no later chunk holds its
/// passage, so that every passage that is not deleted is left, in one chunk.
pub proof fn rewriting_keeps_passages(
    chunks: Seq<ChunkDocs>,
    deleted: Set<i64>,
    plan: Seq<KeptChunk>,
)
    requires
        forall|c: int| 0 <= c < chunks.len() ==> docs_wf(#[trigger] chunks[c]),
        is_plan(chunks, deleted, chunks.len() as int, plan),
    ensures
        forall|i: int, j: int|
            0 <= i < j < plan.len() ==> (#[trigger] plan[i]).old_idx < (#[trigger] plan[j]).old_idx,
        forall|j: int| 0 <= j < plan.len() ==> (#[trigger] plan[j]).pids@.len() > 0,
        forall|j: int, k: int|
            #![trigger plan[j].pids@[k]]
            0 <= j < plan.len() && 0 <= k < plan[j].pids@.len() ==> !deleted.contains(
                plan[j].pids@[k],
            ) && !held_from(chunks, plan[j].old_idx + 1, plan[j].pids@[k]) && holds_id(
                chunks[plan[j].old_idx as int],
                plan[j].pids@[k],
            ),
        forall|c: int, d: int|
            #![trigger chunks[c].pids@[d]]
            0 <= c < chunks.len() && 0 <= d < chunks[c].doclens@.len() && !deleted.contains(
                chunks[c].pids@[d],
            ) && !held_from(chunks, c + 1, chunks[c].pids@[d]) ==> in_plan(
                plan,
                c,
                chunks[c].pids@[d],
            ),
        forall|pid: i64|
            #![trigger deleted.contains(pid)]
            held_from(chunks, 0, pid) && !deleted.contains(pid) ==> exists|c: int|
                #[trigger] in_plan(plan, c, pid),
        forall|b: int, c: int, pid: i64|
            #[trigger] in_plan(plan, b, pid) && #[trigger] in_plan(plan, c, pid) ==> b == c,
{
    let n = chunks.len() as int;
    let kept = kept_chunks(chunks, deleted, n);
    kept_chunks_hold(chunks, deleted, n);
    assert forall|j: int| 0 <= j < plan.len() implies (#[trigger] plan[j]).pids@.len() > 0 by {
        assert(0 <= kept[j] < n);
    }
    assert forall|i: int, j: int| 0 <= i < j < plan.len() implies (#[trigger] plan[i]).old_idx < (
    #[trigger] plan[j]).old_idx by {
        assert(kept[i] < kept[j]);
    }
    assert forall|j: int, k: int|
        #![trigger plan[j].pids@[k]]
        0 <= j < plan.len() && 0 <= k < plan[j].pids@.len() implies !deleted.contains(
        plan[j].pids@[k],
    ) && !held_from(chunks, plan[j].old_idx + 1, plan[j].pids@[k]) && holds_id(
        chunks[plan[j].old_idx as int],
        plan[j].pids@[k],
    ) by {
        let docs = chunks[kept[j]];
        let gone = dropped(chunks, deleted, kept[j]);
        filtering_keeps_documents(docs, gone, plan[j]);
        assert(!gone.contains(plan[j].pids@[k]));
        tombstones::surviving_inside(docs.pids@, gone, docs.doclens@.len() as int);
        let d = kept_docs(docs, gone)[k];
        assert(docs.pids@[d] == plan[j].pids@[k]);
    }
    assert forall|c: int, d: int|
        #![trigger chunks[c].pids@[d]]
        0 <= c < chunks.len() && 0 <= d < chunks[c].doclens@.len() && !deleted.contains(
            chunks[c].pids@[d],
        ) && !held_from(chunks, c + 1, chunks[c].pids@[d]) implies in_plan(
        plan,
        c,
        chunks[c].pids@[d],
    ) by {
        let j = kept_is_planned(chunks, deleted, plan, c, d);
    }
    assert forall|pid: i64|
        #![trigger deleted.contains(pid)]
        held_from(chunks, 0, pid) && !deleted.contains(pid) implies exists|c: int|
        #[trigger] in_plan(plan, c, pid) by {
        let first = choose|b: int| 0 <= b < chunks.len() && #[trigger] holds_id(chunks[b], pid);
        let c = last_holder(chunks, first, n, pid);
        let d = choose|d: int|
            0 <= d < chunks[c].doclens@.len() && #[trigger] chunks[c].pids@[d] == pid;
        assert(!held_from(chunks, c + 1, pid));
        assert(in_plan(plan, c, chunks[c].pids@[d]));
    }
    assert forall|b: int, c: int, pid: i64|
        #[trigger] in_plan(plan, b, pid) && #[trigger] in_plan(plan, c, pid) implies b == c by {
        let i = choose|i: int|
            0 <= i < plan.len() && (#[trigger] plan[i]).old_idx == b && plan[i].pids@.contains(pid);
        let j = choose|j: int|
            0 <= j < plan.len() && (#[trigger] plan[j]).old_idx == c && plan[j].pids@.contains(pid);
        let k = choose|k: int| 0 <= k < plan[i].pids@.len() && plan[i].pids@[k] == pid;
        let l = choose|l: int| 0 <= l < plan[j].pids@.len() && plan[j].pids@[l] == pid;
        assert(plan[i].pids@[k] == pid && plan[j].pids@[l] == pid);
        assert(0 <= kept[i] < n && 0 <= kept[j] < n);
        assert(holds_id(chunks[b], pid) && holds_id(chunks[c], pid));
        if b < c {
            assert(held_from(chunks, b + 1, pid));
        } else if c < b {
            assert(held_from(chunks, c + 1, pid));
        }
    }
}

/// What is left of an index after a rewrite: of each passage that is not deleted its
/// latest document, and nothing else. What is left in a chunk was in that chunk, is
/// not deleted, and is in no later chunk; and whatever was so is left there.
pub proof fn rewriting_keeps_latest_documents(
    chunks: Seq<ChunkDocs>,
    deleted: Set<i64>,
    plan: Seq<KeptChunk>,
)
    requires
        forall|c: int| 0 <= c < chunks.len() ==> docs_wf(#[trigger] chunks[c]),
        is_plan(chunks, deleted, chunks.len() as int, plan),
    ensures
        forall|j: int| 0 <= j < plan.len() ==> (#[trigger] plan[j]).old_idx < chunks.len(),
        forall|i: int, j: int|
            0 <= i < j < plan.len() ==> (#[trigger] plan[i]).old_idx < (#[trigger] plan[j]).old_idx,
        forall|j: int| 0 <= j < plan.len() ==> (#[trigger] plan[j]).pids@.len() > 0,
        forall|j: int, k: int|
            #![trigger plan[j].pids@[k]]
            0 <= j < plan.len() && 0 <= k < plan[j].pids@.len() ==> !deleted.contains(
                plan[j].pids@[k],
            ) && exists|d: int|
                0 <= d < chunks[plan[j].old_idx as int].doclens@.len()
                    && #[trigger] chunks[plan[j].old_idx as int].pids@[d] == plan[j].pids@[k],
        forall|j: int, k: int, c: int, d: int|
            #![trigger plan[j].pids@[k], chunks[c].pids@[d]]
            0 <= j < plan.len() && 0 <= k < plan[j].pids@.len() && plan[j].old_idx < c
                < chunks.len() && 0 <= d < chunks[c].doclens@.len() ==> chunks[c].pids@[d]
                != plan[j].pids@[k],
        forall|c: int, d: int|
            #![trigger chunks[c].pids@[d]]
            0 <= c < chunks.len() && 0 <= d < chunks[c].doclens@.len() && !deleted.contains(
                chunks[c].pids@[d],
            ) && (forall|b: int, e: int|
                #![trigger chunks[b].pids@[e]]
                c < b < chunks.len() && 0 <= e < chunks[b].doclens@.len() ==> chunks[b].pids@[e]
                    != chunks[c].pids@[d]) ==> exists|j: int|
                0 <= j < plan.len() && (#[trigger] plan[j]).old_idx == c && plan[j].pids@.contains(
                    chunks[c].pids@[d],
                ),
{
    rewriting_keeps_passages(chunks, deleted, plan);
    kept_chunks_hold(chunks, deleted, chunks.len() as int);
    let kept = kept_chunks(chunks, deleted, chunks.len() as int);
    assert forall|j: int| 0 <= j < plan.len() implies (#[trigger] plan[j]).old_idx < chunks.len() by {
        assert(0 <= kept[j] < chunks.len());
    }
    assert forall|j: int, k: int|
        #![trigger plan[j].pids@[k]]
        0 <= j < plan.len() && 0 <= k < plan[j].pids@.len() implies !deleted.contains(
        plan[j].pids@[k],
    ) && exists|d: int|
        0 <= d < chunks[plan[j].old_idx as int].doclens@.len()
            && #[trigger] chunks[plan[j].old_idx as int].pids@[d] == plan[j].pids@[k] by {
        assert(holds_id(chunks[plan[j].old_idx as int], plan[j].pids@[k]));
    }
    assert forall|j: int, k: int, c: int, d: int|
        #![trigger plan[j].pids@[k], chunks[c].pids@[d]]
        0 <= j < plan.len() && 0 <= k < plan[j].pids@.len() && plan[j].old_idx < c < chunks.len()
            && 0 <= d < chunks[c].doclens@.len() implies chunks[c].pids@[d]
        != plan[j].pids@[k] by {
        if chunks[c].pids@[d] == plan[j].pids@[k] {
            assert(holds_id(chunks[c], plan[j].pids@[k]));
            assert(held_from(chunks, plan[j].old_idx + 1, plan[j].pids@[k]));
        }
    }
    assert forall|c: int, d: int|
        #![trigger chunks[c].pids@[d]]
        0 <= c < chunks.len() && 0 <= d < chunks[c].doclens@.len() && !deleted.contains(
            chunks[c].pids@[d],
        ) && (forall|b: int, e: int|
            #![trigger chunks[b].pids@[e]]
            c < b < chunks.len() && 0 <= e < chunks[b].doclens@.len() ==> chunks[b].pids@[e]
                != chunks[c].pids@[d]) implies exists|j: int|
        0 <= j < plan.len() && (#[trigger] plan[j]).old_idx == c && plan[j].pids@.contains(
            chunks[c].pids@[d],
        ) by {
        let pid = chunks[c].pids@[d];
        if held_from(chunks, c + 1, pid) {
            let b = choose|b: int| c + 1 <= b < chunks.len() && #[trigger] holds_id(chunks[b], pid);
            let e = choose|e: int|
                0 <= e < chunks[b].doclens@.len() && #[trigger] chunks[b].pids@[e] == pid;
            assert(chunks[b].pids@[e] == pid);
        }
        assert(in_plan(plan, c, pid));
    }
}

/// Adds the IDs of a chunk's documents.
fn collect_ids(docs: &ChunkDocs, ids: &mut HashSet<i64>)
    requires
        docs_wf(*docs),
    ensures
        forall|p: i64| #[trigger] final(ids)@.contains(p) <==> old(ids)@.contains(p) || holds_id(*docs, p),
{
    let mut d: usize = 0;
    while d < docs.doclens.len()
        invariant
            d <= docs.doclens@.len(),
            docs_wf(*docs),
            forall|p: i64| #[trigger]
                ids@.contains(p) <==> old(ids)@.contains(p) || exists|e: int|
                    0 <= e < d && #[trigger] docs.pids@[e] == p,
        decreases docs.doclens@.len() - d,
    {
        let ghost before = ids@;
        let pid: i64 = docs.pids[d];
        ids.insert(pid);
        d += 1;
        assert forall|p: i64| #[trigger]
            ids@.contains(p) <==> old(ids)@.contains(p) || exists|e: int|
                0 <= e < d && #[trigger] docs.pids@[e] == p by {
            if p == pid {
                assert(docs.pids@[d - 1] == p);
            } else {
                assert(ids@.contains(p) <==> before.contains(p));
            }
        }
    }
}

/// Scans each chunk to determine which survive and what is kept of them.
pub fn plan_rewrite(chunks: &Vec<ChunkDocs>, deleted: &Tombstones) -> (plan: Vec<KeptChunk>)
    requires
        forall|c: int| 0 <= c < chunks@.len() ==> docs_wf(#[trigger] chunks@[c]),
    ensures
        is_plan(chunks@, deleted@, chunks@.len() as int, plan@),
{
    let n: usize = chunks.len();
    let mut later: HashSet<i64> = HashSet::new();
    // What is left of the chunks, from the last to the first.
    let mut rest: Vec<KeptChunk> = Vec::new();
    let mut c: usize = n;
    while 0 < c
        invariant
            c <= n,
            n == chunks@.len(),
            forall|b: int| 0 <= b < chunks@.len() ==> docs_wf(#[trigger] chunks@[b]),
            forall|p: i64| #[trigger] later@.contains(p) <==> held_from(chunks@, c as int, p),
            rest@.len() == n - c,
            forall|t: int|
                c <= t < n ==> (#[trigger] rest@[n - 1 - t]).old_idx == t && is_kept(
                    chunks@[t],
                    dropped(chunks@, deleted@, t),
                    rest@[n - 1 - t],
                ),
        decreases c,
    {
        c -= 1;
        let ghost before = rest@;
        let kept = filter_chunk(c, &chunks[c], deleted, &later);
        assert(deleted@.union(later@) =~= dropped(chunks@, deleted@, c as int));
        rest.push(kept);
        assert(docs_wf(chunks@[c as int]));
        collect_ids(&chunks[c], &mut later);
        proof {
            assert forall|p: i64| #[trigger] later@.contains(p) <==> held_from(
                chunks@,
                c as int,
                p,
            ) by {
                held_one_earlier(chunks@, c as int, p);
            }
            assert forall|t: int| c <= t < n implies (#[trigger] rest@[n - 1 - t]).old_idx == t
                && is_kept(chunks@[t], dropped(chunks@, deleted@, t), rest@[n - 1 - t]) by {
                if t > c {
                    assert(rest@[n - 1 - t] == before[n - 1 - t]);
                }
            }
        }
    }
    let ghost all = rest@;
    let mut plan: Vec<KeptChunk> = Vec::new();
    while 0 < rest.len()
        invariant
            c + rest@.len() == n,
            n == chunks@.len(),
            all.len() == n,
            rest@ == all.take(rest@.len() as int),
            forall|t: int|
                0 <= t < n ==> (#[trigger] all[n - 1 - t]).old_idx == t && is_kept(
                    chunks@[t],
                    dropped(chunks@, deleted@, t),
                    all[n - 1 - t],
                ),
            is_plan(chunks@, deleted@, c as int, plan@),
        decreases rest@.len(),
    {
        let ghost before = plan@;
        if let Some(kept) = rest.pop() {
            assert(kept == all[n - 1 - c]);
            assert(rest@ =~= all.take(rest@.len() as int));
            assert(kept.doclens@.len() == kept_docs(
                chunks@[c as int],
                dropped(chunks@, deleted@, c as int),
            ).len());
            if kept.doclens.len() > 0 {
                plan.push(kept);
            }
            c += 1;
        }
        assert forall|j: int| 0 <= j < before.len() implies #[trigger] plan@[j] == before[j] by {}
    }
    plan
}

/// A document of a chunk has been replaced: a later chunk holds its passage.
pub open spec fn is_stale(chunks: Seq<ChunkDocs>, c: int, d: int) -> bool {
    0 <= c < chunks.len() && 0 <= d < chunks[c].doclens@.len() && held_from(
        chunks,
        c + 1,
        chunks[c].pids@[d],
    )
}

/// A document has been replaced exactly where a document of a later chunk has its ID.
pub proof fn stale_documents_are_replaced(chunks: Seq<ChunkDocs>, c: int, d: int)
    requires
        0 <= c < chunks.len(),
        0 <= d < chunks[c].doclens@.len(),
    ensures
        is_stale(chunks, c, d) <==> exists|b: int, e: int|
            c < b < chunks.len() && 0 <= e < chunks[b].doclens@.len()
                && #[trigger] chunks[b].pids@[e] == chunks[c].pids@[d],
{
    let pid = chunks[c].pids@[d];
    if is_stale(chunks, c, d) {
        let b = choose|b: int| c + 1 <= b < chunks.len() && #[trigger] holds_id(chunks[b], pid);
        let e = choose|e: int|
            0 <= e < chunks[b].doclens@.len() && #[trigger] chunks[b].pids@[e] == pid;
        assert(chunks[b].pids@[e] == pid);
    }
    if exists|b: int, e: int|
        c < b < chunks.len() && 0 <= e < chunks[b].doclens@.len() && #[trigger] chunks[b].pids@[e]
            == pid {
        let (b, e) = choose|b: int, e: int|
            c < b < chunks.len() && 0 <= e < chunks[b].doclens@.len()
                && #[trigger] chunks[b].pids@[e] == pid;
        assert(holds_id(chunks[b], pid));
    }
}

/// Whether a chunk holds documents that have been replaced.
pub fn has_stale_documents(chunks: &Vec<ChunkDocs>) -> (r: bool)
    requires
        forall|c: int| 0 <= c < chunks@.len() ==> docs_wf(#[trigger] chunks@[c]),
    ensures
        r == exists|c: int, d: int| is_stale(chunks@, c, d),
{
    let n: usize = chunks.len();
    let mut later: HashSet<i64> = HashSet::new();
    let mut c: usize = n;
    while 0 < c
        invariant
            c <= n,
            n == chunks@.len(),
            forall|b: int| 0 <= b < chunks@.len() ==> docs_wf(#[trigger] chunks@[b]),
            forall|p: i64| #[trigger] later@.contains(p) <==> held_from(chunks@, c as int, p),
            forall|b: int, d: int| c <= b ==> !is_stale(chunks@, b, d),
        decreases c,
    {
        c -= 1;
        let docs = &chunks[c];
        assert(docs_wf(chunks@[c as int]));
        let mut d: usize = 0;
        while d < docs.doclens.len()
            invariant
                d <= docs.doclens@.len(),
                docs_wf(*docs),
                c < chunks@.len(),
                *docs == chunks@[c as int],
                forall|p: i64| #[trigger] later@.contains(p) <==> held_from(chunks@, c + 1, p),
                forall|e: int| 0 <= e < d ==> !is_stale(chunks@, c as int, e),
            decreases docs.doclens@.len() - d,
        {
            if later.contains(&docs.pids[d]) {
                assert(is_stale(chunks@, c as int, d as int));
                return true;
            }
            d += 1;
        }
        collect_ids(docs, &mut later);
        proof {
            assert forall|p: i64| #[trigger] later@.contains(p) <==> held_from(
                chunks@,
                c as int,
                p,
            ) by {
                held_one_earlier(chunks@, c as int, p);
            }
        }
    }
    false
}

proof fn held_one_earlier(chunks: Seq<ChunkDocs>, c: int, p: i64)
    requires
        0 <= c < chunks.len(),
    ensures
        held_from(chunks, c, p) <==> holds_id(chunks[c], p) || held_from(chunks, c + 1, p),
{
    if held_from(chunks, c + 1, p) {
        let b = choose|b: int| c + 1 <= b < chunks.len() && #[trigger] holds_id(chunks[b], p);
        assert(holds_id(chunks[b], p));
    }
    if held_from(chunks, c, p) {
        let b = choose|b: int| c <= b < chunks.len() && #[trigger] holds_id(chunks[b], p);
        if b > c {
            assert(held_from(chunks, c + 1, p));
        }
    }
}

/// All of a chunk is kept: every document, with its rows.
pub open spec fn is_whole(docs: ChunkDocs, kept: KeptChunk) -> bool {
    &&& kept.doclens@ == docs.doclens@
    &&& kept.pids@ == docs.pids@.take(docs.doclens@.len() as int)
    &&& kept.rows@ == Seq::new(
        types::range_sum(docs.doclens@, 0, docs.doclens@.len() as int) as nat,
        |i: int| i as i64,
    )
}

proof fn nothing_dropped(docs: ChunkDocs, gone: Set<i64>, n: int)
    requires
        docs_wf(docs),
        0 <= n <= docs.doclens@.len(),
        forall|d: int|
            0 <= d < docs.doclens@.len() ==> !gone.contains(#[trigger] docs.pids@[d]),
    ensures
        tombstones::surviving(docs.pids@, gone, n) == Seq::new(n as nat, |i: int| i),
        kept_rows(docs.doclens@, docs.pids@, gone, n) == Seq::new(
            types::range_sum(docs.doclens@, 0, n) as nat,
            |i: int| i as i64,
        ),
    decreases n,
{
    if 0 < n {
        nothing_dropped(docs, gone, n - 1);
        encode::part_sums(docs.doclens@, 0, n - 1, docs.doclens@.len() as int);
        assert(!gone.contains(docs.pids@[n - 1]));
        assert(0 <= docs.doclens@[n - 1]);
    }
    assert(tombstones::surviving(docs.pids@, gone, n) =~= Seq::new(n as nat, |i: int| i));
    assert(kept_rows(docs.doclens@, docs.pids@, gone, n) =~= Seq::new(
        types::range_sum(docs.doclens@, 0, n) as nat,
        |i: int| i as i64,
    ));
}

/// Where no document of a chunk is dropped, all of it is kept.
pub proof fn undropped_chunks_are_whole(docs: ChunkDocs, gone: Set<i64>, kept: KeptChunk)
    requires
        docs_wf(docs),
        is_kept(docs, gone, kept),
        forall|d: int|
            0 <= d < docs.doclens@.len() ==> !gone.contains(#[trigger] docs.pids@[d]),
    ensures
        is_whole(docs, kept),
{
    nothing_dropped(docs, gone, docs.doclens@.len() as int);
    assert(kept.doclens@ =~= docs.doclens@);
    assert(kept.pids@ =~= docs.pids@.take(docs.doclens@.len() as int));
}

/// Where no passage is deleted and none has been replaced, there is nothing to
/// rewrite: all of every chunk would be kept.
pub proof fn clean_chunks_stay(chunks: Seq<ChunkDocs>, plan: Seq<KeptChunk>)
    requires
        forall|c: int| 0 <= c < chunks.len() ==> docs_wf(#[trigger] chunks[c]),
        forall|c: int, d: int| !is_stale(chunks, c, d),
        is_plan(chunks, Set::empty(), chunks.len() as int, plan),
    ensures
        forall|j: int|
            0 <= j < plan.len() ==> is_whole(
                chunks[(#[trigger] plan[j]).old_idx as int],
                plan[j],
            ),
        forall|c: int|
            0 <= c < chunks.len() && (#[trigger] chunks[c]).doclens@.len() > 0 ==> exists|j: int|
                0 <= j < plan.len() && (#[trigger] plan[j]).old_idx == c,
{
    let n = chunks.len() as int;
    let kept = kept_chunks(chunks, Set::empty(), n);
    kept_chunks_hold(chunks, Set::empty(), n);
    assert forall|c: int, d: int|
        0 <= c < n && 0 <= d < chunks[c].doclens@.len() implies !dropped(
        chunks,
        Set::empty(),
        c,
    ).contains(#[trigger] chunks[c].pids@[d]) by {
        assert(!is_stale(chunks, c, d));
    }
    assert forall|j: int| 0 <= j < plan.len() implies is_whole(
        chunks[(#[trigger] plan[j]).old_idx as int],
        plan[j],
    ) by {
        assert(0 <= kept[j] < n);
        undropped_chunks_are_whole(
            chunks[kept[j]],
            dropped(chunks, Set::empty(), kept[j]),
            plan[j],
        );
    }
    assert forall|c: int| 0 <= c < n && (#[trigger] chunks[c]).doclens@.len() > 0 implies exists|
        j: int,
    |
        0 <= j < plan.len() && (#[trigger] plan[j]).old_idx == c by {
        assert(!dropped(chunks, Set::empty(), c).contains(chunks[c].pids@[0]));
        let j = kept_is_planned(chunks, Set::empty(), plan, c, 0);
        assert(plan[j].old_idx == c);
    }
}

/// An update followed by a compaction leaves exactly the new rows. The update put
/// the passages into new chunks, each into one of them, and took the marks that
/// it had set away. What the compaction then leaves of an updated passage is in
/// the new chunks, and these are left whole.
pub proof fn compaction_leaves_updated_rows(
    chunks: Seq<ChunkDocs>,
    fresh: Seq<ChunkDocs>,
    deleted: Set<i64>,
    updated: Set<i64>,
    plan: Seq<KeptChunk>,
)
    requires
        forall|c: int| 0 <= c < chunks.len() ==> docs_wf(#[trigger] chunks[c]),
        forall|c: int| 0 <= c < fresh.len() ==> docs_wf(#[trigger] fresh[c]),
        forall|p: i64| #[trigger] updated.contains(p) <==> held_from(fresh, 0, p),
        forall|b: int, c: int, p: i64|
            0 <= b < fresh.len() && 0 <= c < fresh.len() && #[trigger] holds_id(fresh[b], p)
                && #[trigger] holds_id(fresh[c], p) ==> b == c,
        is_plan(
            chunks + fresh,
            deleted.union(updated).difference(updated),
            (chunks + fresh).len() as int,
            plan,
        ),
    ensures
        forall|j: int, k: int|
            #![trigger plan[j].pids@[k]]
            0 <= j < plan.len() && 0 <= k < plan[j].pids@.len() && updated.contains(
                plan[j].pids@[k],
            ) ==> plan[j].old_idx >= chunks.len(),
        forall|c: int|
            0 <= c < fresh.len() && (#[trigger] fresh[c]).doclens@.len() > 0 ==> exists|j: int|
                0 <= j < plan.len() && (#[trigger] plan[j]).old_idx == chunks.len() + c && is_whole(
                    fresh[c],
                    plan[j],
                ),
{
    let all = chunks + fresh;
    let marked = deleted.union(updated).difference(updated);
    let m = chunks.len() as int;
    assert forall|c: int| 0 <= c < all.len() implies docs_wf(#[trigger] all[c]) by {
        if c < m {
            assert(all[c] == chunks[c]);
        } else {
            assert(all[c] == fresh[c - m]);
        }
    }
    rewriting_keeps_passages(all, marked, plan);
    assert forall|j: int, k: int|
        #![trigger plan[j].pids@[k]]
        0 <= j < plan.len() && 0 <= k < plan[j].pids@.len() && updated.contains(
            plan[j].pids@[k],
        ) implies plan[j].old_idx >= chunks.len() by {
        let p = plan[j].pids@[k];
        let b = choose|b: int| 0 <= b < fresh.len() && #[trigger] holds_id(fresh[b], p);
        assert(holds_id(all[m + b], p));
        assert(!held_from(all, plan[j].old_idx + 1, p));
    }
    assert forall|c: int| 0 <= c < fresh.len() && (#[trigger] fresh[c]).doclens@.len() > 0 implies
        exists|j: int|
        0 <= j < plan.len() && (#[trigger] plan[j]).old_idx == chunks.len() + c && is_whole(
            fresh[c],
            plan[j],
        ) by {
        let gone = dropped(all, marked, m + c);
        assert(all[m + c] == fresh[c]);
        assert forall|d: int| 0 <= d < fresh[c].doclens@.len() implies !gone.contains(
            #[trigger] fresh[c].pids@[d],
        ) by {
            let p = fresh[c].pids@[d];
            assert(holds_id(fresh[c], p));
            assert(held_from(fresh, 0, p));
            assert(updated.contains(p));
            if held_from(all, m + c + 1, p) {
                let b = choose|b: int|
                    m + c + 1 <= b < all.len() && #[trigger] holds_id(all[b], p);
                assert(all[b] == fresh[b - m]);
                assert(holds_id(fresh[b - m], p));
            }
        }
        assert(!gone.contains(all[m + c].pids@[0])) by {
            assert(all[m + c].pids@[0] == fresh[c].pids@[0]);
        }
        let j = kept_is_planned(all, marked, plan, m + c, 0);
        undropped_chunks_are_whole(fresh[c], gone, plan[j]);
        assert(plan[j].old_idx == chunks.len() + c);
    }
}

/// The number of documents in the first `n` chunks of the plan.
pub open spec fn docs_before(plan: Seq<KeptChunk>, n: int) -> int
    decreases n,
{
    if n <= 0 {
        0
    } else {
        docs_before(plan, n - 1) + plan[n - 1].doclens@.len()
    }
}

/// The number of embeddings in the first `n` chunks of the plan.
pub open spec fn rows_before(plan: Seq<KeptChunk>, n: int) -> int
    decreases n,
{
    if n <= 0 {
        0
    } else {
        rows_before(plan, n - 1) + plan[n - 1].rows@.len()
    }
}

/// The elements at the given rows.
pub open spec fn selected<T>(all: Seq<T>, rows: Seq<i64>) -> Seq<T> {
    rows.map_values(|r: i64| all[r as int])
}

/// In a rewritten chunk every document has the embeddings that it had, in their order.
pub proof fn rewritten_documents_keep_embeddings<T>(
    docs: ChunkDocs,
    dropped: Set<i64>,
    kept: KeptChunk,
    starts: Seq<int>,
    new_starts: Seq<int>,
    all: Seq<T>,
) -> (picked: Seq<int>)
    requires
        docs_wf(docs),
        is_kept(docs, dropped, kept),
        row_starts(docs.doclens@, starts),
        row_starts(kept.doclens@, new_starts),
    ensures
        picked.len() == kept.pids@.len(),
        selected(all, kept.rows@).len() == new_starts[picked.len() as int],
        forall|k: int|
            0 <= k < picked.len() ==> 0 <= #[trigger] picked[k] < docs.doclens@.len()
                && kept.pids@[k] == docs.pids@[picked[k]] && kept.doclens@[k]
                == docs.doclens@[picked[k]],
        forall|k: int, i: int|
            #![trigger selected(all, kept.rows@)[new_starts[k] + i]]
            0 <= k < picked.len() && 0 <= i < kept.doclens@[k] ==> selected(
                all,
                kept.rows@,
            )[new_starts[k] + i] == all[starts[picked[k]] + i],
{
    let picked = kept_documents_keep_rows(docs, dropped, kept, starts, new_starts);
    let lens = kept.doclens@;
    assert forall|k: int, i: int|
        #![trigger selected(all, kept.rows@)[new_starts[k] + i]]
        0 <= k < picked.len() && 0 <= i < lens[k] implies selected(
        all,
        kept.rows@,
    )[new_starts[k] + i] == all[starts[picked[k]] + i] by {
        assert forall|d: int| 0 <= d < lens.len() implies 0 <= #[trigger] lens[d] by {
            assert(0 <= picked[d]);
            assert(0 <= docs.doclens@[picked[d]]);
        }
        starts_are_sums(lens, new_starts, k);
        starts_are_sums(lens, new_starts, k + 1);
        starts_are_sums(lens, new_starts, lens.len() as int);
        encode::part_sums(lens, 0, k, lens.len() as int);
        encode::part_sums(lens, 0, k + 1, lens.len() as int);
        assert(kept.rows@[new_starts[k] + i] == starts[picked[k]] + i);
    }
    picked
}

/// The rewritten chunks follow each other: each starts where the documents and the
/// embeddings of those before it end.
pub proof fn rewritten_chunks_follow_each_other(plan: Seq<KeptChunk>, n: int)
    requires
        0 <= n < plan.len(),
    ensures
        docs_before(plan, 0) == 0,
        rows_before(plan, 0) == 0,
        docs_before(plan, n + 1) == docs_before(plan, n) + plan[n].doclens@.len(),
        rows_before(plan, n + 1) == rows_before(plan, n) + plan[n].rows@.len(),
{
}

/// A chunk that is kept whole is copied: its rows, in their order, are those that
/// its documents had.
pub proof fn whole_chunks_are_copied<T>(docs: ChunkDocs, kept: KeptChunk, all: Seq<T>)
    requires
        docs_wf(docs),
        is_whole(docs, kept),
        types::range_sum(docs.doclens@, 0, docs.doclens@.len() as int) <= all.len(),
    ensures
        selected(all, kept.rows@) == all.take(
            types::range_sum(docs.doclens@, 0, docs.doclens@.len() as int),
        ),
{
    let n = docs.doclens@.len() as int;
    encode::part_sums(docs.doclens@, 0, n, n);
    assert(selected(all, kept.rows@) =~= all.take(types::range_sum(docs.doclens@, 0, n)));
}

fn copy_row(row: &Vec<u8>) -> (r: Vec<u8>)
    ensures
        r@ == row@,
{
    let mut r: Vec<u8> = Vec::new();
    let mut i: usize = 0;
    while i < row.len()
        invariant
            i <= row@.len(),
            r@ == row@.take(i as int),
        decreases row@.len() - i,
    {
        r.push(row[i]);
        i += 1;
        assert(r@ =~= row@.take(i as int));
    }
    assert(r@ =~= row@);
    r
}

/// Rewrites the chunks of a plan one after the other.
pub struct ChunkRewriter {
    pub plan: Vec<KeptChunk>,
    /// The number of the next chunk
    pub next: usize,
    /// The number of documents in the chunks before it
    pub passage_offset: usize,
    /// The number of embeddings in the chunks before it
    pub emb_offset: usize,
}

impl ChunkRewriter {
    pub open spec fn wf(self) -> bool {
        &&& self.next <= self.plan@.len()
        &&& self.passage_offset == docs_before(self.plan@, self.next as int)
        &&& self.emb_offset == rows_before(self.plan@, self.next as int)
    }

    pub fn new(plan: Vec<KeptChunk>) -> (r: Self)
        ensures
            r.wf(),
            r.plan == plan,
            r.next == 0,
    {
        ChunkRewriter { plan, next: 0, passage_offset: 0, emb_offset: 0 }
    }

    /// The chunk that is read next, if there is one.
    pub fn old_idx(&self) -> (r: Option<usize>)
        requires
            self.wf(),
        ensures
            r == (if self.next < self.plan@.len() {
                Some(self.plan@[self.next as int].old_idx)
            } else {
                None
            }),
    {
        if self.next < self.plan.len() {
            Some(self.plan[self.next].old_idx)
        } else {
            None
        }
    }

    /// The next chunk, given the codes and residuals of the chunk that it is
    /// made from.
    pub fn rewrite_chunk(&mut self, codes: &Vec<i64>, residuals: &Vec<Vec<u8>>) -> (r: EncodedChunk)
        requires
            old(self).wf(),
            old(self).next < old(self).plan@.len(),
            docs_before(old(self).plan@, old(self).next + 1) <= usize::MAX,
            rows_before(old(self).plan@, old(self).next + 1) <= usize::MAX,
            forall|i: int|
                0 <= i < old(self).plan@[old(self).next as int].rows@.len() ==> 0
                    <= #[trigger] old(self).plan@[old(self).next as int].rows@[i] < codes@.len(),
            residuals@.len() == codes@.len(),
        ensures
            final(self).wf(),
            final(self).plan == old(self).plan,
            final(self).next == old(self).next + 1,
            ({
                let kept = old(self).plan@[old(self).next as int];
                &&& r.index == old(self).next
                &&& r.data.codes@.len() == kept.rows@.len()
                &&& r.data.residuals@.len() == kept.rows@.len()
                &&& forall|i: int|
                    0 <= i < kept.rows@.len() ==> #[trigger] r.data.codes@[i]
                        == codes@[kept.rows@[i] as int]
                &&& forall|i: int|
                    0 <= i < kept.rows@.len() ==> (#[trigger] r.data.residuals@[i])@
                        == residuals@[kept.rows@[i] as int]@
                &&& r.data.codes@ == selected(codes@, kept.rows@)
                &&& encode::row_texts(r.data.residuals@) == selected(encode::row_texts(residuals@), kept.rows@)
                &&& r.data.doclens@ == kept.doclens@
                &&& r.data.pids@ == kept.pids@
                &&& r.meta == (ChunkMeta {
                    passage_offset: Some(docs_before(old(self).plan@, old(self).next as int) as usize),
                    num_passages: kept.doclens@.len() as usize,
                    num_embeddings: kept.rows@.len() as usize,
                    embedding_offset: rows_before(old(self).plan@, old(self).next as int) as usize,
                })
            }),
    {
        let kept = &self.plan[self.next];
        let mut new_codes: Vec<i64> = Vec::new();
        let mut new_residuals: Vec<Vec<u8>> = Vec::new();
        let mut i: usize = 0;
        assert(codes@.len() == codes.len());
        while i < kept.rows.len()
            invariant
                i <= kept.rows@.len(),
                residuals@.len() == codes@.len(),
                codes@.len() <= usize::MAX,
                forall|j: int|
                    0 <= j < kept.rows@.len() ==> 0 <= #[trigger] kept.rows@[j] < codes@.len(),
                new_codes@ == selected(codes@, kept.rows@).take(i as int),
                encode::row_texts(new_residuals@) == selected(encode::row_texts(residuals@), kept.rows@).take(
                    i as int,
                ),
            decreases kept.rows@.len() - i,
        {
            assert(0 <= kept.rows@[i as int] < codes@.len());
            let row: usize = kept.rows[i] as usize;
            new_codes.push(codes[row]);
            let copy = copy_row(&residuals[row]);
            let ghost before = new_residuals@;
            new_residuals.push(copy);
            i += 1;
            assert(new_codes@ =~= selected(codes@, kept.rows@).take(i as int));
            assert(encode::row_texts(new_residuals@) =~= encode::row_texts(before).push(copy@));
            assert(encode::row_texts(new_residuals@) =~= selected(encode::row_texts(residuals@), kept.rows@).take(
                i as int,
            ));
        }
        proof {
            let codes_goal = selected(codes@, kept.rows@);
            let residuals_goal = selected(encode::row_texts(residuals@), kept.rows@);
            assert(codes_goal.take(kept.rows@.len() as int) =~= codes_goal);
            assert(residuals_goal.take(kept.rows@.len() as int) =~= residuals_goal);
        }
        proof {
            assert(encode::row_texts(new_residuals@).len() == kept.rows@.len());
            assert forall|i: int| 0 <= i < kept.rows@.len() implies (
            #[trigger] new_residuals@[i])@ == residuals@[kept.rows@[i] as int]@ by {
                assert(encode::row_texts(new_residuals@)[i] == new_residuals@[i]@);
                assert(0 <= kept.rows@[i] < codes@.len());
            }
        }
        let mut doclens: Vec<i64> = Vec::new();
        let mut pids: Vec<i64> = Vec::new();
        doclens.extend_from_slice(kept.doclens.as_slice());
        pids.extend_from_slice(kept.pids.as_slice());
        assert(doclens@ =~= kept.doclens@);
        assert(pids@ =~= kept.pids@);
        let num_passages: usize = kept.doclens.len();
        let num_embeddings: usize = kept.rows.len();
        let meta = ChunkMeta {
            passage_offset: Some(self.passage_offset),
            num_passages,
            num_embeddings,
            embedding_offset: self.emb_offset,
        };
        let index: usize = self.next;
        assert(index < self.plan.len());
        self.passage_offset = self.passage_offset + num_passages;
        self.emb_offset = self.emb_offset + num_embeddings;
        self.next = self.next + 1;
        EncodedChunk {
            index,
            data: ChunkData { codes: new_codes, residuals: new_residuals, doclens, pids },
            meta,
        }
    }
}

/// The files of the chunks from `start` to `end`.
pub open spec fn files_of_chunks(start: int, end: int) -> Seq<Seq<char>>
    decreases end - start,
{
    if end <= start {
        Seq::empty()
    } else {
        files_of_chunks(start, end - 1) + files::chunk_names((end - 1) as nat)
    }
}

/// All files of every chunk of the range are listed, and no others.
pub proof fn files_of_chunks_are_listed(start: int, end: int)
    requires
        0 <= start <= end,
    ensures
        files_of_chunks(start, end).len() == 5 * (end - start),
        forall|c: int, f: int|
            #![trigger files::chunk_names(c as nat)[f]]
            start <= c < end && 0 <= f < 5 ==> files_of_chunks(start, end)[5 * (c - start) + f]
                == files::chunk_names(c as nat)[f],
    decreases end - start,
{
    if start < end {
        files_of_chunks_are_listed(start, end - 1);
        let before = files_of_chunks(start, end - 1);
        let all = files_of_chunks(start, end);
        assert forall|c: int, f: int|
            #![trigger files::chunk_names(c as nat)[f]]
            start <= c < end && 0 <= f < 5 implies all[5 * (c - start) + f] == files::chunk_names(
            c as nat,
        )[f] by {
            if c < end - 1 {
                assert(all[5 * (c - start) + f] == before[5 * (c - start) + f]);
            }
        }
    }
}

/// The names of the files of the chunks from `start` to `end`: below the number
/// of chunks left, those that take their place once all are written; from there
/// on, those that are deleted.
pub fn chunk_file_names(start: usize, end: usize) -> (r: Vec<String>)
    requires
        start <= end,
    ensures
        files::texts(r@) == files_of_chunks(start as int, end as int),
{
    let mut r: Vec<String> = Vec::new();
    let mut c: usize = start;
    assert(files::texts(r@) =~= Seq::<Seq<char>>::empty());
    while c < end
        invariant
            start <= c <= end,
            files::texts(r@) == files_of_chunks(start as int, c as int),
        decreases end - c,
    {
        let ghost before = r@;
        let mut names = files::chunk_files(c);
        let ghost added = names@;
        r.append(&mut names);
        c += 1;
        assert(files::texts(r@) =~= files::texts(before) + files::texts(added));
    }
    r
}

} // verus!
