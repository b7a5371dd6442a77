use xtr_warp::index::encode::{
    count_codes, default_score_batch_size, effective_code_batch_size, effective_emb_batch_size,
    effective_score_batch_size, kind_size_bytes, micro_batches, parse_env_i64, profile_enabled,
    score_est_bytes, split_rows, tensor_nbytes, ChunkData, ChunkEncoder, ChunkStats, EncodeError, EncodeLocalStats,
    MicroBatch,
};
use xtr_warp::index::files::{
    chunk_files, count_chunks, metadata_file, read_num_passages, shard_dir, temporary, ChunkMeta,
};
use xtr_warp::index::packing::{pack_residuals, pack_row, packbits};
use xtr_warp::index::rewrite::{
    chunk_file_names, has_stale_documents, plan_rewrite, ChunkDocs, ChunkRewriter,
};
use xtr_warp::index::update::{
    addition_decision, append_centroids, coalesce_decision, extend_offsets, extend_sizes, prepend_chunk_data,
    should_coalesce, AddPlan, AppendTarget, CompactStage, Compaction, UpdateError, UpdatePlan,
};
use xtr_warp::search::loader::compute_offsets;
use xtr_warp::search::tombstones::Tombstones;
use xtr_warp::utils::types::{
    boundaries_cover, AvgDoclen, CompactStats, IndexMetadata, IndexPlan, Kind,
};

fn metadata() -> IndexMetadata {
    IndexMetadata {
        num_chunks: 3,
        nbits: 4,
        num_partitions: 16,
        num_embeddings: 60,
        avg_doclen: AvgDoclen::Stored(7),
        num_passages: 20,
        next_passage_id: 25,
        num_centroids: 8,
        dim: 128,
        created_at: "then".to_string(),
        num_shards: None,
        shard_boundaries: None,
    }
}

#[test]
fn batch_sizes_shrink_with_shards_to_a_floor() {
    assert_eq!(effective_emb_batch_size(None, None), 262_144);
    assert_eq!(effective_emb_batch_size(None, Some(0)), 262_144);
    assert_eq!(effective_emb_batch_size(None, Some(2)), 131_072);
    assert_eq!(effective_emb_batch_size(None, Some(100)), 32_768);
    assert_eq!(effective_emb_batch_size(None, Some(usize::MAX)), 32_768);
    assert_eq!(effective_code_batch_size(None, None), 1_048_576);
    assert_eq!(effective_code_batch_size(None, Some(3)), 349_525);
    assert_eq!(effective_code_batch_size(None, Some(1000)), 16_384);
    assert_eq!(effective_score_batch_size(None, None, 1000, None), 536_870);
    assert_eq!(effective_score_batch_size(None, None, 1000, Some(2)), 268_435);
    assert_eq!(effective_score_batch_size(None, None, 0, None), 536_870_912);
    assert_eq!(effective_score_batch_size(None, None, i64::MAX, None), 1);
    assert_eq!(default_score_batch_size(1 << 20), 512);
}

#[test]
fn variables_set_batch_sizes() {
    assert_eq!(effective_emb_batch_size(Some("77"), Some(9)), 77);
    assert_eq!(effective_code_batch_size(Some("78"), Some(9)), 78);
    assert_eq!(effective_score_batch_size(Some("79"), Some("5"), 10, Some(9)), 79);
    assert_eq!(effective_score_batch_size(None, Some("1000"), 10, Some(2)), 50);
    assert_eq!(effective_score_batch_size(None, Some("1"), 10, Some(2)), 1);
    assert_eq!(effective_emb_batch_size(Some("0"), None), 262_144);
    assert_eq!(effective_emb_batch_size(Some("-3"), None), 262_144);
    assert_eq!(effective_emb_batch_size(Some("many"), None), 262_144);
}

#[test]
fn variables_hold_positive_numbers() {
    assert_eq!(parse_env_i64(Some("12")), Some(12));
    assert_eq!(parse_env_i64(Some("+12")), Some(12));
    assert_eq!(parse_env_i64(Some("9223372036854775807")), Some(i64::MAX));
    assert_eq!(parse_env_i64(Some("9223372036854775808")), None);
    assert_eq!(parse_env_i64(Some("-9223372036854775808")), None);
    assert_eq!(parse_env_i64(Some(" 12")), None);
    assert_eq!(parse_env_i64(Some("")), None);
    assert_eq!(parse_env_i64(None), None);
}

#[test]
fn profiles_are_switched_on_by_words() {
    for on in ["1", "true", "TRUE", "yes", "YES"] {
        assert!(profile_enabled(Some(on)));
    }
    for off in ["", "0", "True", "on", "1 "] {
        assert!(!profile_enabled(Some(off)));
    }
    assert!(!profile_enabled(None));
}

#[test]
fn kinds_have_sizes() {
    assert_eq!(kind_size_bytes(Kind::Bool), 1);
    assert_eq!(kind_size_bytes(Kind::Int8), 1);
    assert_eq!(kind_size_bytes(Kind::BFloat16), 2);
    assert_eq!(kind_size_bytes(Kind::Float), 4);
    assert_eq!(kind_size_bytes(Kind::Double), 8);
    assert_eq!(kind_size_bytes(Kind::ComplexHalf), 4);
    assert_eq!(tensor_nbytes(10, Kind::Int64), 80);
    assert_eq!(score_est_bytes(100, 7), 1400);
}

#[test]
fn stats_keep_the_largest() {
    let mut s = EncodeLocalStats::default();
    s.update_batch(1, 2, 3, 4, 5, 6, 7, 8);
    s.update_batch(9, 1, 1, 1, 1, 1, 1, 1);
    assert_eq!(s.max_emb_batch_bytes, 9);
    assert_eq!(s.max_score_est_bytes, 2);
    assert_eq!(s.max_residual_packed_bytes, 8);
    assert_eq!(s.max_working_set_est_bytes, 36);
}

#[test]
fn rows_are_split_into_ranges() {
    assert_eq!(split_rows(7, 3), vec![(0, 3), (3, 3), (6, 1)]);
    assert_eq!(split_rows(0, 3), vec![(0, 0)]);
}

#[test]
fn documents_are_taken_until_a_batch_is_full() {
    let batch = |first_doc, end_doc, rows| MicroBatch { first_doc, end_doc, rows };
    assert_eq!(
        micro_batches(&vec![4, 5, 1, 20, 2], 10),
        vec![batch(0, 3, 10), batch(3, 4, 20), batch(4, 5, 2)]
    );
    assert_eq!(micro_batches(&vec![10], 10), vec![batch(0, 1, 10)]);
    assert_eq!(micro_batches(&vec![0, 0], 10), vec![batch(0, 2, 0)]);
    assert_eq!(micro_batches(&vec![], 10), vec![]);
}

#[test]
fn codes_are_counted() {
    let mut counts = vec![1, 0, 5];
    count_codes(&mut counts, &vec![2, 0, 2, 2]);
    assert_eq!(counts, vec![2, 0, 8]);
}

#[test]
fn bits_are_packed_from_the_highest() {
    assert_eq!(packbits(&vec![1, 0, 0, 0, 0, 0, 0, 1]), vec![129]);
    assert_eq!(
        packbits(&vec![0, 1, 1, 0, 1, 0, 0, 0, 1, 1, 1, 1, 1, 1, 1, 1]),
        vec![104, 255]
    );
    assert_eq!(packbits(&vec![]), Vec::<u8>::new());
}

#[test]
fn buckets_are_packed_bit_by_bit() {
    // 5 is 1, 0, 1, 0 from its lowest bit on, 12 is 0, 0, 1, 1.
    assert_eq!(pack_row(&vec![5, 12], &vec![0, 1, 2, 3]), vec![0b1010_0011]);
    assert_eq!(
        pack_residuals(&vec![vec![5, 12], vec![0, 15]], &vec![0, 1, 2, 3], 2),
        vec![vec![0b1010_0011], vec![0b0000_1111]]
    );
}

#[test]
fn chunks_are_encoded_one_after_the_other() {
    let mut e: ChunkEncoder<i64> =
        ChunkEncoder::new(Some(vec![10, 11, 12]), 3, 4, 5, true).ok().unwrap();
    e.add_batch(&vec![0, 3], vec![vec![1], vec![2]], &vec![100, 200]);
    e.add_batch(&vec![3], vec![vec![3]], &vec![300]);
    let first = e.finish_chunk(vec![1, 2]);
    assert_eq!(first.index, 5);
    assert_eq!(first.data.codes, vec![0, 3, 3]);
    assert_eq!(first.data.residuals, vec![vec![1], vec![2], vec![3]]);
    assert_eq!(first.data.doclens, vec![1, 2]);
    assert_eq!(first.data.pids, vec![10, 11]);
    assert_eq!(
        first.meta,
        ChunkMeta {
            passage_offset: Some(0),
            num_passages: 2,
            num_embeddings: 3,
            embedding_offset: 0
        }
    );
    e.add_batch(&vec![1], vec![vec![4]], &vec![400]);
    let second = e.finish_chunk(vec![1]);
    assert_eq!(second.index, 6);
    assert_eq!(second.data.pids, vec![12]);
    assert_eq!(
        second.meta,
        ChunkMeta {
            passage_offset: Some(2),
            num_passages: 1,
            num_embeddings: 1,
            embedding_offset: 3
        }
    );
    let r = e.finish();
    assert_eq!(r.total_embeddings, 4);
    assert_eq!(r.global_centroid_counts, vec![1, 1, 0, 2]);
    assert_eq!(r.residual_norms, Some(vec![100, 200, 300, 400]));
    assert_eq!(
        r.chunk_stats,
        vec![
            ChunkStats { embedding_offset: 0, num_embeddings: 3 },
            ChunkStats { embedding_offset: 3, num_embeddings: 1 },
        ]
    );
}

#[test]
fn documents_without_ids_are_numbered() {
    let mut e: ChunkEncoder<i64> = ChunkEncoder::new(None, 3, 1, 0, false).ok().unwrap();
    e.add_batch(&vec![0], vec![vec![]], &vec![]);
    assert_eq!(e.finish_chunk(vec![1, 0]).data.pids, vec![0, 1]);
    assert_eq!(e.finish_chunk(vec![0]).data.pids, vec![2]);
    assert_eq!(e.finish().residual_norms, None);
}

#[test]
fn norms_change_no_chunk() {
    let encode = |collect_norms: bool| {
        let mut e: ChunkEncoder<i64> =
            ChunkEncoder::new(Some(vec![7, 8]), 2, 2, 1, collect_norms).ok().unwrap();
        e.add_batch(&vec![1, 0], vec![vec![1], vec![2]], &vec![10, 20]);
        let first = e.finish_chunk(vec![2]);
        e.add_batch(&vec![1], vec![vec![3]], &vec![30]);
        let second = e.finish_chunk(vec![1]);
        (first, second, e.finish())
    };
    let (first, second, without) = encode(false);
    let (first_too, second_too, with) = encode(true);
    assert_eq!(first.index, first_too.index);
    assert_eq!(first.data.codes, first_too.data.codes);
    assert_eq!(first.data.residuals, first_too.data.residuals);
    assert_eq!(first.data.pids, first_too.data.pids);
    assert_eq!(first.meta, first_too.meta);
    assert_eq!(second.data.codes, second_too.data.codes);
    assert_eq!(second.meta, second_too.meta);
    assert_eq!(without.chunk_stats, with.chunk_stats);
    assert_eq!(without.total_embeddings, with.total_embeddings);
    assert_eq!(without.global_centroid_counts, with.global_centroid_counts);
    assert_eq!(without.residual_norms, None);
    assert_eq!(with.residual_norms, Some(vec![10, 20, 30]));
}

#[test]
fn there_is_one_id_for_each_document() {
    let e: Result<ChunkEncoder<i64>, EncodeError> =
        ChunkEncoder::new(Some(vec![1, 2]), 3, 1, 0, false);
    assert_eq!(
        e.err(),
        Some(EncodeError::PassageIdCount { passage_ids: 2, num_docs: 3 })
    );
}

#[test]
fn chunks_have_named_files() {
    assert_eq!(
        chunk_files(12),
        vec![
            "12.codes.npy",
            "12.residuals.npy",
            "doclens.12.npy",
            "12.passage_ids.npy",
            "12.metadata.json",
        ]
    );
    assert_eq!(metadata_file(0), "0.metadata.json");
    assert_eq!(shard_dir(3), "shard_3");
    assert_eq!(temporary("0.codes.npy"), "0.codes.npy.tmp");
    assert_eq!(chunk_file_names(1, 3), [chunk_files(1), chunk_files(2)].concat());
    assert_eq!(chunk_file_names(2, 2), Vec::<String>::new());
}

#[test]
fn chunks_are_counted_up_to_the_first_gap() {
    let files = |names: &[&str]| names.iter().map(|n| n.to_string()).collect::<Vec<String>>();
    assert_eq!(count_chunks(&files(&["1.codes.npy", "x", "0.codes.npy"])), 2);
    assert_eq!(count_chunks(&files(&["0.codes.npy", "2.codes.npy"])), 1);
    assert_eq!(count_chunks(&files(&["1.codes.npy"])), 0);
    assert_eq!(count_chunks(&files(&[])), 0);
}

#[test]
fn chunk_metadata_reads_back() {
    let meta = ChunkMeta {
        passage_offset: Some(3),
        num_passages: 1999,
        num_embeddings: 5,
        embedding_offset: 7,
    };
    let json = meta.to_json();
    assert_eq!(
        String::from_utf8(json.clone()).unwrap(),
        "{\"embedding_offset\":7,\"num_embeddings\":5,\"num_passages\":1999,\"passage_offset\":3}"
    );
    assert_eq!(read_num_passages(&json).ok(), Some(Some(1999)));
    let meta = ChunkMeta { passage_offset: None, ..meta };
    let json = meta.to_json();
    assert_eq!(
        String::from_utf8(json).unwrap(),
        "{\"embedding_offset\":7,\"num_embeddings\":5,\"num_passages\":1999}"
    );
}

#[test]
fn small_last_chunks_take_new_documents() {
    assert_eq!(coalesce_decision(3, Some(1999)), (2, true));
    assert_eq!(coalesce_decision(3, Some(2000)), (3, false));
    assert_eq!(coalesce_decision(3, None), (3, false));
    assert_eq!(coalesce_decision(0, Some(1)), (0, false));
}

#[test]
fn the_metadata_of_the_last_chunk_decides() {
    let decide = |json: &str| should_coalesce(3, Some(&json.as_bytes().to_vec()));
    assert_eq!(decide("{\"num_passages\": 12}").ok(), Some((2, true)));
    assert_eq!(decide("{\"num_passages\": 2000}").ok(), Some((3, false)));
    assert_eq!(decide("{\"num_passages\": -1}").ok(), Some((3, false)));
    assert_eq!(decide("{\"num_passages\": \"12\"}").ok(), Some((3, false)));
    assert_eq!(decide("{}").ok(), Some((3, false)));
    assert_eq!(decide("[1]").ok(), Some((3, false)));
    assert!(matches!(decide("{").err(), Some(UpdateError::InvalidChunkMetadata(_))));
    assert_eq!(should_coalesce(3, None).ok(), Some((3, false)));
    assert_eq!(should_coalesce(0, Some(&b"{".to_vec())).ok(), Some((0, false)));
}

#[test]
fn added_documents_get_new_ids() {
    let plan = AddPlan::new(&metadata(), 4, None).ok().unwrap();
    assert_eq!(plan.new_passage_ids, vec![25, 26, 27, 28]);
    assert_eq!((plan.start_chunk_idx, plan.coalesce), (3, false));
    assert_eq!(plan.residual_dim, 64);
    assert_eq!(
        plan.encoding,
        IndexPlan {
            n_docs: 4,
            num_chunks: 1,
            avg_doc_len: AvgDoclen::Zero,
            est_total_embs: 0,
            nbits: 4
        }
    );
    let stats = CompactStats { total_embeddings: 70, num_active_passages: 24 };
    let (meta, result) = plan.finish(&metadata(), 1, &stats, Some(vec![1i64, 2]));
    assert_eq!(meta.num_chunks, 4);
    assert_eq!(meta.next_passage_id, 29);
    assert_eq!(meta.num_embeddings, 70);
    assert_eq!(meta.num_passages, 24);
    assert_eq!(meta.avg_doclen, AvgDoclen::Quotient { embeddings: 70, passages: 24 });
    assert_eq!(meta.created_at, "then");
    assert_eq!(result.new_passage_ids, vec![25, 26, 27, 28]);
    assert_eq!(result.residual_norms, vec![1, 2]);
    assert_eq!(result.embedding_dim, 128);
    let later = AddPlan::new(&meta, 1, None).ok().unwrap();
    assert_eq!(later.new_passage_ids, vec![29]);
}

#[test]
fn additions_can_share_the_last_chunk() {
    let json = b"{\"num_passages\": 7}".to_vec();
    let plan = AddPlan::new(&metadata(), 25_001, Some(&json)).ok().unwrap();
    assert_eq!((plan.start_chunk_idx, plan.coalesce), (2, true));
    assert_eq!(plan.encoding.num_chunks, 2);
    let stats = CompactStats { total_embeddings: 0, num_active_passages: 0 };
    let (meta, result) = plan.finish(&metadata(), 2, &stats, None::<Vec<i64>>);
    assert_eq!(meta.num_chunks, 4);
    assert_eq!(meta.avg_doclen, AvgDoclen::Zero);
    assert!(result.residual_norms.is_empty());
    assert!(AddPlan::new(&metadata(), 1, Some(&vec![])).is_err());
}

#[test]
fn small_additions_go_into_the_last_chunk() {
    let full = b"{\"num_passages\": 25000}".to_vec();
    let start = |num_docs: usize, json: Option<&Vec<u8>>| {
        let plan = AddPlan::new(&metadata(), num_docs, json).ok().unwrap();
        (plan.start_chunk_idx, plan.coalesce)
    };
    assert_eq!(start(10, Some(&full)), (2, true));
    assert_eq!(start(1999, Some(&full)), (2, true));
    assert_eq!(start(2000, Some(&full)), (3, false));
    assert_eq!(start(2000, Some(&b"{\"num_passages\": 1999}".to_vec())), (2, true));
    assert_eq!(start(10, Some(&b"{}".to_vec())), (2, true));
    assert_eq!(start(2000, Some(&b"{}".to_vec())), (3, false));
    assert_eq!(start(10, None), (3, false));
    let mut empty = metadata();
    empty.num_chunks = 0;
    let plan = AddPlan::new(&empty, 10, Some(&full)).ok().unwrap();
    assert_eq!((plan.start_chunk_idx, plan.coalesce), (0, false));
    let plan = AddPlan::new(&metadata(), 10, Some(&full)).ok().unwrap();
    let stats = CompactStats { total_embeddings: 1, num_active_passages: 1 };
    let (meta, _) = plan.finish(&metadata(), 1, &stats, None::<Vec<i64>>);
    assert_eq!(meta.num_chunks, 3);
}

#[test]
fn the_size_of_an_addition_decides_first() {
    assert_eq!(addition_decision(0, 3, true, (2, true)), (3, false));
    assert_eq!(addition_decision(1999, 3, true, (3, false)), (2, true));
    assert_eq!(addition_decision(1999, 3, false, (3, false)), (3, false));
    assert_eq!(addition_decision(1999, 0, true, (0, false)), (0, false));
    assert_eq!(addition_decision(2000, 3, true, (3, false)), (3, false));
    assert_eq!(addition_decision(2000, 3, true, (2, true)), (2, true));
}

#[test]
fn nothing_to_add_touches_no_chunk() {
    let small = b"{\"num_passages\": 5}".to_vec();
    let plan = AddPlan::new(&metadata(), 0, Some(&small)).ok().unwrap();
    assert_eq!((plan.start_chunk_idx, plan.coalesce), (3, false));
    assert!(plan.new_passage_ids.is_empty());
    let stats = CompactStats { total_embeddings: 60, num_active_passages: 20 };
    let (meta, _) = plan.finish(&metadata(), 0, &stats, None::<Vec<i64>>);
    assert_eq!(meta.num_chunks, 3);
    assert_eq!(meta.next_passage_id, 25);
}

#[test]
fn ids_rise_over_all_changes() {
    let stats = CompactStats { total_embeddings: 1, num_active_passages: 1 };
    let first = AddPlan::new(&metadata(), 3, None).ok().unwrap();
    let (meta, first) = first.finish(&metadata(), 1, &stats, None::<Vec<i64>>);
    let meta = UpdatePlan::new(&meta, 1, 1).ok().unwrap().finish(&meta, 1, &stats);
    let (meta, _) = append_centroids(meta, 4);
    let c = Compaction::start(&meta, &Tombstones::new(), &vec![]);
    let meta = c.pruned(Some(2)).rebuilt(stats, None).recalibrated().finish(&meta);
    let second = AddPlan::new(&meta, 2, None).ok().unwrap();
    assert_eq!(first.new_passage_ids, vec![25, 26, 27]);
    assert_eq!(second.new_passage_ids, vec![28, 29]);
}

#[test]
fn updates_keep_the_watermark() {
    let plan = UpdatePlan::new(&metadata(), 50_000, 50_000).ok().unwrap();
    assert_eq!(plan.start_chunk_idx, 3);
    assert_eq!(plan.encoding.num_chunks, 2);
    let stats = CompactStats { total_embeddings: 61, num_active_passages: 20 };
    let meta = plan.finish(&metadata(), 2, &stats);
    assert_eq!(meta.num_chunks, 5);
    assert_eq!(meta.next_passage_id, 25);
    assert!(matches!(
        UpdatePlan::new(&metadata(), 2, 3).err(),
        Some(UpdateError::PassageIdCount { passage_ids: 2, num_docs: 3 })
    ));
    assert_eq!(UpdatePlan::new(&metadata(), 0, 0).ok().unwrap().encoding.num_chunks, 1);
}

#[test]
fn a_compaction_goes_through_its_stages() {
    let mut m = metadata();
    m.num_shards = Some(2);
    m.shard_boundaries = Some(vec![0, 4, 8]);
    let mut deleted = Tombstones::new();
    deleted.extend(&vec![4]);
    let c = Compaction::start(&m, &deleted, &vec![]);
    assert_eq!(c.stage, CompactStage::RewriteChunks);
    let c = c.rewritten(2);
    assert_eq!(c.stage, CompactStage::PruneCentroids);
    let c = c.pruned(Some(6));
    assert_eq!(c.stage, CompactStage::Rebuild);
    assert_eq!((c.num_chunks, c.num_centroids), (2, 6));
    assert_eq!(c.shards_to_rebuild(), Some(2));
    assert!(c.can_take(&Some(vec![0, 3, 6])));
    assert!(!c.can_take(&Some(vec![0, 3, 8])));
    assert!(!c.can_take(&Some(vec![0, 6])));
    assert!(!c.can_take(&None));
    let stats = CompactStats { total_embeddings: 9, num_active_passages: 3 };
    let c = c.rebuilt(stats, Some(vec![0, 3, 6]));
    assert_eq!(c.stage, CompactStage::Recalibrate);
    let updated = c.recalibrated().finish(&m);
    assert_eq!((updated.num_chunks, updated.num_centroids), (2, 6));
    assert_eq!(updated.shard_boundaries, Some(vec![0, 3, 6]));
    assert_eq!(updated.next_passage_id, 25);
    assert_eq!(updated.num_shards, Some(2));
    assert_eq!(updated.avg_doclen, AvgDoclen::Quotient { embeddings: 9, passages: 3 });
}

#[test]
fn a_compaction_without_deletions_keeps_the_chunks() {
    let m = metadata();
    let chunks = vec![
        ChunkDocs { doclens: vec![1, 1], pids: vec![1, 2] },
        ChunkDocs { doclens: vec![1], pids: vec![3, 1] },
    ];
    let c = Compaction::start(&m, &Tombstones::new(), &chunks);
    assert_eq!(c.stage, CompactStage::PruneCentroids);
    let c = c.pruned(None);
    assert_eq!((c.num_chunks, c.num_centroids), (3, 8));
    assert_eq!(c.shards_to_rebuild(), None);
    assert!(c.can_take(&None));
    let stats = CompactStats { total_embeddings: 0, num_active_passages: 0 };
    let updated = c.rebuilt(stats, None).recalibrated().finish(&m);
    assert_eq!(updated.shard_boundaries, None);
    assert_eq!(updated.avg_doclen, AvgDoclen::Zero);
}

#[test]
fn the_boundaries_of_one_shard_follow_its_centroids() {
    let mut one = metadata();
    one.num_shards = Some(1);
    one.shard_boundaries = Some(vec![0, 8]);
    let stats = CompactStats { total_embeddings: 5, num_active_passages: 2 };
    let c = Compaction::start(&one, &Tombstones::new(), &vec![]);
    assert_eq!(c.shards_to_rebuild(), None);
    let updated = c.pruned(Some(6)).rebuilt(stats, None).recalibrated().finish(&one);
    assert_eq!(updated.num_centroids, 6);
    assert_eq!(updated.shard_boundaries, Some(vec![0, 6]));
    assert!(boundaries_cover(&vec![0, 6], 6));
    assert!(!boundaries_cover(&vec![0, 8], 6));
    assert!(!boundaries_cover(&vec![0, 4, 3, 6], 6));
    assert!(!boundaries_cover(&vec![0], 0));
}

#[test]
fn replaced_passages_are_rewritten_without_marks() {
    // Passages 2 and 5 were updated, which put them into the last chunk.
    let chunks = vec![
        ChunkDocs { doclens: vec![2, 1], pids: vec![1, 2] },
        ChunkDocs { doclens: vec![3], pids: vec![5] },
        ChunkDocs { doclens: vec![4, 1], pids: vec![5, 2] },
    ];
    assert!(has_stale_documents(&chunks));
    let none = Tombstones::new();
    let c = Compaction::start(&metadata(), &none, &chunks);
    assert_eq!(c.stage, CompactStage::RewriteChunks);
    let plan = plan_rewrite(&chunks, &none);
    assert_eq!(plan.len(), 2);
    assert_eq!((plan[0].old_idx, &plan[0].pids), (0, &vec![1]));
    assert_eq!(plan[0].rows, vec![0, 1]);
    assert_eq!((plan[1].old_idx, &plan[1].pids), (2, &vec![5, 2]));
    assert_eq!(plan[1].doclens, vec![4, 1]);
    assert_eq!(plan[1].rows, vec![0, 1, 2, 3, 4]);
    let mut deleted = Tombstones::new();
    deleted.extend(&vec![5]);
    let plan = plan_rewrite(&chunks, &deleted);
    assert_eq!(plan[1].pids, vec![2]);
    assert_eq!(plan[1].rows, vec![4]);
    assert!(!has_stale_documents(&vec![ChunkDocs { doclens: vec![1, 1], pids: vec![9, 9] }]));
}

#[test]
fn old_data_stays_before_new_data() {
    let old = ChunkData {
        codes: vec![1],
        residuals: vec![vec![9]],
        doclens: vec![1],
        pids: vec![5],
    };
    let new = ChunkData {
        codes: vec![2, 3],
        residuals: vec![vec![8], vec![7]],
        doclens: vec![2],
        pids: vec![6],
    };
    let (data, meta) = prepend_chunk_data(old, new);
    assert_eq!(data.codes, vec![1, 2, 3]);
    assert_eq!(data.residuals, vec![vec![9], vec![8], vec![7]]);
    assert_eq!(data.doclens, vec![1, 2]);
    assert_eq!(data.pids, vec![5, 6]);
    assert_eq!(
        meta,
        ChunkMeta { passage_offset: None, num_passages: 2, num_embeddings: 3, embedding_offset: 0 }
    );
}

#[test]
fn new_centroids_extend_the_last_shard() {
    let mut m = metadata();
    m.shard_boundaries = Some(vec![0, 4, 8]);
    let (m, target) = append_centroids(m, 3);
    assert_eq!(target, AppendTarget::LastShard(1));
    assert_eq!(m.shard_boundaries, Some(vec![0, 4, 11]));
    assert_eq!(m.num_centroids, 11);
}

#[test]
fn new_centroids_extend_a_whole_index() {
    let (m, target) = append_centroids(metadata(), 2);
    assert_eq!(target, AppendTarget::Whole);
    assert_eq!(m.num_centroids, 10);
    assert_eq!(m.shard_boundaries, None);
    let (m, target) = append_centroids(metadata(), 0);
    assert_eq!(target, AppendTarget::Nothing);
    assert_eq!(m.num_centroids, 8);
}

#[test]
fn extended_offsets_are_those_of_extended_sizes() {
    let sizes = vec![3, 0, 2];
    let more = extend_sizes(&sizes, 2);
    assert_eq!(more, vec![3, 0, 2, 0, 0]);
    assert_eq!(extend_offsets(&compute_offsets(&sizes), 2), compute_offsets(&more));
}

#[test]
fn rewriting_removes_deleted_passages() {
    let chunks = vec![
        ChunkDocs { doclens: vec![2, 1, 3], pids: vec![1, 2, 3] },
        ChunkDocs { doclens: vec![4], pids: vec![4] },
        ChunkDocs { doclens: vec![1, 1], pids: vec![5, 6] },
    ];
    let mut deleted = Tombstones::new();
    deleted.extend(&vec![2, 4, 5]);
    let plan = plan_rewrite(&chunks, &deleted);
    assert_eq!(plan.len(), 2);
    assert_eq!(plan[0].old_idx, 0);
    assert_eq!(plan[0].pids, vec![1, 3]);
    assert_eq!(plan[0].doclens, vec![2, 3]);
    assert_eq!(plan[0].rows, vec![0, 1, 3, 4, 5]);
    assert_eq!(plan[1].old_idx, 2);
    assert_eq!(plan[1].rows, vec![1]);

    let mut rewriter = ChunkRewriter::new(plan);
    assert_eq!(rewriter.old_idx(), Some(0));
    let rows = |codes: &[i64]| codes.iter().map(|c| vec![*c as u8]).collect::<Vec<Vec<u8>>>();
    let codes = vec![10, 11, 12, 13, 14, 15];
    let first = rewriter.rewrite_chunk(&codes, &rows(&codes));
    assert_eq!(first.index, 0);
    assert_eq!(first.data.codes, vec![10, 11, 13, 14, 15]);
    assert_eq!(first.data.residuals, rows(&[10, 11, 13, 14, 15]));
    assert_eq!(first.data.pids, vec![1, 3]);
    assert_eq!(rewriter.old_idx(), Some(2));
    let codes = vec![20, 21];
    let second = rewriter.rewrite_chunk(&codes, &rows(&codes));
    assert_eq!(second.index, 1);
    assert_eq!(second.data.codes, vec![21]);
    assert_eq!(second.data.doclens, vec![1]);
    assert_eq!(
        second.meta,
        ChunkMeta {
            passage_offset: Some(2),
            num_passages: 1,
            num_embeddings: 1,
            embedding_offset: 5
        }
    );
    assert_eq!(rewriter.old_idx(), None);
}

#[test]
fn packed_bits_are_where_they_belong() {
    let bits: Vec<u8> = (0..64).map(|i| ((i * 5 + i / 7) % 3 == 0) as u8).collect();
    let bytes = packbits(&bits);
    for (i, bit) in bits.iter().enumerate() {
        assert_eq!((bytes[i / 8] >> (7 - i % 8)) & 1, *bit);
    }
}
