//! Encoding of documents into chunks.

use crate::index::files::ChunkMeta;
use crate::score::Score;
use crate::text;
use crate::utils::batching;
use crate::utils::types;
use crate::utils::types::Kind;
use vstd::prelude::*;

verus! {

/// The number of documents in a chunk.
pub const CHUNK_SIZE: usize = 25_000;

/// The number of embeddings encoded at once, for one shard.
pub const EMB_BATCH_SIZE: i64 = 262_144;

/// The number of codes decoded at once, for one shard.
pub const CODE_BATCH_SIZE: i64 = 1_048_576;

/// The fewest embeddings encoded at once, however many shards there are.
pub const MIN_EMB_BATCH_SIZE: i64 = 32_768;

/// The fewest codes decoded at once, however many shards there are.
pub const MIN_CODE_BATCH_SIZE: i64 = 16_384;

/// The number of centroid scores computed at once, for one shard.
pub const MAX_SCORE_ELEMS: i64 = 536_870_912;

/// Data from a single chunk: a code and a packed residual for each embedding,
/// a length and an ID for each document.
pub struct ChunkData {
    pub codes: Vec<i64>,
    pub residuals: Vec<Vec<u8>>,
    pub doclens: Vec<i64>,
    pub pids: Vec<i64>,
}

#[derive(Debug, Clone, Copy, PartialEq, Eq, Structural)]
pub struct ChunkStats {
    pub embedding_offset: usize,
    pub num_embeddings: usize,
}

pub struct EncodeResult<S> {
    pub chunk_stats: Vec<ChunkStats>,
    pub total_embeddings: i64,
    pub global_centroid_counts: Vec<i64>,
    /// Per-embedding L2 residual norms (only populated when they are collected).
    pub residual_norms: Option<Vec<S>>,
}

/// The text of an optional string.
pub open spec fn raw(value: Option<&str>) -> Option<Seq<char>> {
    match value {
        Some(s) => Some(s@),
        None => None,
    }
}

/// The text of an optional string is its own.
pub proof fn raw_texts_are_given(s: &str)
    ensures
        raw(None) is None,
        raw(Some(s)) == Some(s@),
{
}

/// The positive number that an environment variable holds, if it does.
pub open spec fn env_number(value: Option<Seq<char>>) -> Option<i64> {
    match value {
        Some(s) => match text::parsed_i64(s) {
            Some(n) => if n > 0 {
                Some(n)
            } else {
                None
            },
            None => None,
        },
        None => None,
    }
}

/// The positive number that an environment variable holds, if it does.
pub fn parse_env_i64(value: Option<&str>) -> (r: Option<i64>)
    ensures
        r == env_number(raw(value)),
{
    match value {
        Some(s) => match text::parse_i64(&text::chars_of(s)) {
            Some(n) => if n > 0 {
                Some(n)
            } else {
                None
            },
            None => None,
        },
        None => None,
    }
}

/// Whether an environment variable switches a profile on.
pub open spec fn switched_on(value: Option<Seq<char>>) -> bool {
    value matches Some(s) && (s == "1"@ || s == "true"@ || s == "TRUE"@ || s == "yes"@ || s
        == "YES"@)
}

/// Whether an environment variable switches a profile on.
pub fn profile_enabled(value: Option<&str>) -> (r: bool)
    ensures
        r == switched_on(raw(value)),
{
    match value {
        Some(s) => {
            let s = text::chars_of(s);
            text::equals(&s, "1") || text::equals(&s, "true") || text::equals(&s, "TRUE")
                || text::equals(&s, "yes") || text::equals(&s, "YES")
        },
        None => false,
    }
}

/// A profile is switched on by `1`, `true` or `yes`, the words in upper or lower
/// case, and by nothing else.
pub proof fn profile_words(value: Option<Seq<char>>)
    ensures
        switched_on(value) <==> value == Some("1"@) || value == Some("true"@) || value == Some(
            "TRUE"@,
        ) || value == Some("yes"@) || value == Some("YES"@),
{
}

/// A variable gives a number exactly where it holds a positive one.
pub proof fn env_numbers_are_positive(value: Seq<char>, n: nat)
    ensures
        env_number(None) is None,
        env_number(Some(value)) matches Some(x) ==> x > 0 && text::parsed_i64(value) == Some(x),
        0 < n <= i64::MAX ==> env_number(Some(text::decimal(n))) == Some(n as i64),
{
    text::decimal_reads_back(n);
}

/// How many shards share the memory: at least one.
pub open spec fn shard_factor(num_shards: Option<usize>) -> int {
    match num_shards {
        Some(n) => if n > 1 {
            n as int
        } else {
            1
        },
        None => 1,
    }
}

/// The larger of two numbers.
pub open spec fn at_least(n: int, floor: int) -> int {
    if n < floor {
        floor
    } else {
        n
    }
}

fn per_shard(n: i64, num_shards: Option<usize>) -> (r: i64)
    requires
        0 <= n,
    ensures
        r == n as int / shard_factor(num_shards),
        0 <= r <= n,
{
    let shards: u64 = match num_shards {
        Some(s) => if s > 1 {
            s as u64
        } else {
            1
        },
        None => 1,
    };
    let r: u64 = n as u64 / shards;
    assert(0 <= n as int / shards as int <= n) by (nonlinear_arith)
        requires
            0 <= n,
            1 <= shards,
    ;
    r as i64
}

/// The number of embeddings encoded at once: what the variable asks for, else
/// a share of the default, above a floor.
pub fn effective_emb_batch_size(env: Option<&str>, num_shards: Option<usize>) -> (r: i64)
    ensures
        r == (match env_number(raw(env)) {
            Some(n) => n as int,
            None => at_least(EMB_BATCH_SIZE as int / shard_factor(num_shards), MIN_EMB_BATCH_SIZE as int),
        }),
        r > 0,
        env is None && num_shards is None ==> r == 262_144,
        env is None ==> r >= 32_768,
        env is None ==> (num_shards matches Some(n) ==> n > 1 ==> r == 32_768 || r
            == 262_144int / n as int),
{
    if let Some(n) = parse_env_i64(env) {
        return n;
    }
    let scaled: i64 = per_shard(EMB_BATCH_SIZE, num_shards);
    // Keep a sane floor so extremely high shard counts don't become pathological.
    if scaled < MIN_EMB_BATCH_SIZE {
        MIN_EMB_BATCH_SIZE
    } else {
        scaled
    }
}

/// The number of codes decoded at once: what the variable asks for, else a
/// share of the default, above a floor.
pub fn effective_code_batch_size(env: Option<&str>, num_shards: Option<usize>) -> (r: i64)
    ensures
        r == (match env_number(raw(env)) {
            Some(n) => n as int,
            None => at_least(
                CODE_BATCH_SIZE as int / shard_factor(num_shards),
                MIN_CODE_BATCH_SIZE as int,
            ),
        }),
        r > 0,
        env is None && num_shards is None ==> r == 1_048_576,
        env is None ==> r >= 16_384,
        env is None ==> (num_shards matches Some(n) ==> n > 1 ==> r == 16_384 || r
            == 1_048_576int / n as int),
{
    if let Some(n) = parse_env_i64(env) {
        return n;
    }
    let scaled: i64 = per_shard(CODE_BATCH_SIZE, num_shards);
    if scaled < MIN_CODE_BATCH_SIZE {
        MIN_CODE_BATCH_SIZE
    } else {
        scaled
    }
}

/// The number of embeddings scored at once: what the first variable asks for,
/// else as many as keep the scores, one for each centroid, within the shard's
/// share of the limit, which the second variable can set; but at least one.
pub open spec fn score_batch_size(
    env_batch: Option<i64>,
    env_elems: Option<i64>,
    num_centroids: int,
    num_shards: Option<usize>,
) -> int {
    match env_batch {
        Some(n) => n as int,
        None => {
            let limit = match env_elems {
                Some(n) => n as int,
                None => MAX_SCORE_ELEMS as int,
            };
            at_least(
                at_least(limit / shard_factor(num_shards), 1) / at_least(num_centroids, 1),
                1,
            )
        },
    }
}

/// The scores of a batch, one for each centroid and embedding, stay within the share
/// of the limit that one of `n` shards has, unless one embedding alone exceeds it; and
/// a batch of one embedding more would exceed it.
pub proof fn score_batches_stay_within_share(
    env_elems: Option<i64>,
    num_centroids: int,
    n: int,
    num_shards: Option<usize>,
)
    requires
        env_elems matches Some(limit) ==> limit > 0,
        0 < num_centroids,
        n == (if num_shards is Some && num_shards->Some_0 > 1 {
            num_shards->Some_0 as int
        } else {
            1
        }),
    ensures
        ({
            let limit: int = if env_elems is Some {
                env_elems->Some_0 as int
            } else {
                536_870_912
            };
            let rows = score_batch_size(None, env_elems, num_centroids, num_shards);
            &&& rows >= 1
            &&& rows == 1 || rows * num_centroids * n <= limit
            &&& n <= limit ==> (rows + 1) * num_centroids > limit / n
        }),
{
    let limit: int = if env_elems is Some {
        env_elems->Some_0 as int
    } else {
        536_870_912
    };
    let share = limit / n;
    let capped = at_least(share, 1);
    let rows = capped / num_centroids;
    assert(0 <= share && share * n <= limit && (n <= limit ==> share >= 1)) by (nonlinear_arith)
        requires
            share == limit / n,
            1 <= n,
            0 < limit,
    ;
    assert(0 <= rows && rows * num_centroids <= capped < (rows + 1) * num_centroids)
        by (nonlinear_arith)
        requires
            rows == capped / num_centroids,
            0 < num_centroids,
            1 <= capped,
    ;
    if rows > 1 {
        assert(capped == share) by (nonlinear_arith)
            requires
                rows > 1,
                rows * num_centroids <= capped,
                0 < num_centroids,
                capped == 1 || capped == share,
        ;
        assert(rows * num_centroids * n <= limit) by (nonlinear_arith)
            requires
                rows * num_centroids <= share,
                share * n <= limit,
                1 <= n,
        ;
    }
    if rows < 1 {
        assert((1 + 1) * num_centroids > (rows + 1) * num_centroids) by (nonlinear_arith)
            requires
                rows < 1,
                0 < num_centroids,
        ;
    }
}

/// What a variable asks for is how many embeddings are scored at once.
pub proof fn configured_score_batch_is_taken(
    n: i64,
    env_elems: Option<i64>,
    num_centroids: int,
    num_shards: Option<usize>,
)
    ensures
        score_batch_size(Some(n), env_elems, num_centroids, num_shards) == n,
{
}

/// The number of embeddings scored at once.
pub fn effective_score_batch_size(
    env_batch: Option<&str>,
    env_elems: Option<&str>,
    num_centroids: i64,
    num_shards: Option<usize>,
) -> (r: i64)
    ensures
        r == score_batch_size(
            env_number(raw(env_batch)),
            env_number(raw(env_elems)),
            num_centroids as int,
            num_shards,
        ),
        r > 0,
{
    if let Some(n) = parse_env_i64(env_batch) {
        return n;
    }
    let limit: i64 = match parse_env_i64(env_elems) {
        Some(n) => n,
        None => MAX_SCORE_ELEMS,
    };
    let share: i64 = per_shard(limit, num_shards);
    let scaled: u64 = if share < 1 {
        1
    } else {
        share as u64
    };
    let centroids: u64 = if num_centroids < 1 {
        1
    } else {
        num_centroids as u64
    };
    let rows: u64 = scaled / centroids;
    assert(0 <= scaled as int / centroids as int <= scaled) by (nonlinear_arith)
        requires
            0 <= scaled,
            1 <= centroids,
    ;
    if rows < 1 {
        1
    } else {
        rows as i64
    }
}

/// The number of embeddings scored at once where nothing is configured.
pub fn default_score_batch_size(num_centroids: i64) -> (r: i64)
    ensures
        r == score_batch_size(None, None, num_centroids as int, None),
        r > 0,
{
    effective_score_batch_size(None, None, num_centroids, None)
}

/// The size of an element in bytes.
pub open spec fn element_size(kind: Kind) -> int {
    match kind {
        Kind::Bool | Kind::Uint8 | Kind::Int8 => 1,
        Kind::Int16 | Kind::Half | Kind::BFloat16 => 2,
        Kind::Int | Kind::Float => 4,
        Kind::Int64 | Kind::Double => 8,
        _ => 4,
    }
}

/// The sizes of the element types that an index uses.
pub proof fn element_sizes()
    ensures
        element_size(Kind::Uint8) == 1,
        element_size(Kind::Int8) == 1,
        element_size(Kind::Bool) == 1,
        element_size(Kind::Int16) == 2,
        element_size(Kind::Half) == 2,
        element_size(Kind::BFloat16) == 2,
        element_size(Kind::Int) == 4,
        element_size(Kind::Float) == 4,
        element_size(Kind::Int64) == 8,
        element_size(Kind::Double) == 8,
{
}

pub fn kind_size_bytes(kind: Kind) -> (r: usize)
    ensures
        r == element_size(kind),
{
    match kind {
        Kind::Bool | Kind::Uint8 | Kind::Int8 => 1,
        Kind::Int16 | Kind::Half | Kind::BFloat16 => 2,
        Kind::Int | Kind::Float => 4,
        Kind::Int64 | Kind::Double => 8,
        _ => 4,
    }
}

/// The size of a tensor in bytes.
pub fn tensor_nbytes(numel: usize, kind: Kind) -> (r: usize)
    requires
        numel * element_size(kind) <= usize::MAX,
    ensures
        r == numel * element_size(kind),
{
    numel * kind_size_bytes(kind)
}

/// An estimate of the size of the scores of a batch, in bytes: one half-precision
/// number for each centroid and each embedding.
pub fn score_est_bytes(num_centroids: usize, rows: usize) -> (r: usize)
    requires
        num_centroids * rows * 2 <= usize::MAX,
    ensures
        r == num_centroids * rows * 2,
{
    assert(num_centroids * rows <= usize::MAX) by (nonlinear_arith)
        requires
            num_centroids * rows * 2 <= usize::MAX,
            num_centroids >= 0,
            rows >= 0,
    ;
    num_centroids * rows * kind_size_bytes(Kind::Half)
}

/// The largest tensors seen while encoding, in bytes.
#[derive(Debug, Clone, Copy, PartialEq, Eq, Structural)]
pub struct EncodeLocalStats {
    pub max_emb_batch_bytes: usize,
    pub max_score_est_bytes: usize,
    pub max_code_batch_bytes: usize,
    pub max_recon_bytes: usize,
    pub max_residual_float_bytes: usize,
    pub max_residual_bucketized_bytes: usize,
    pub max_residual_bits_bytes: usize,
    pub max_residual_packed_bytes: usize,
    pub max_working_set_est_bytes: usize,
}

impl Default for EncodeLocalStats {
    fn default() -> (r: Self)
        ensures
            r == (EncodeLocalStats {
                max_emb_batch_bytes: 0,
                max_score_est_bytes: 0,
                max_code_batch_bytes: 0,
                max_recon_bytes: 0,
                max_residual_float_bytes: 0,
                max_residual_bucketized_bytes: 0,
                max_residual_bits_bytes: 0,
                max_residual_packed_bytes: 0,
                max_working_set_est_bytes: 0,
            }),
    {
        EncodeLocalStats {
            max_emb_batch_bytes: 0,
            max_score_est_bytes: 0,
            max_code_batch_bytes: 0,
            max_recon_bytes: 0,
            max_residual_float_bytes: 0,
            max_residual_bucketized_bytes: 0,
            max_residual_bits_bytes: 0,
            max_residual_packed_bytes: 0,
            max_working_set_est_bytes: 0,
        }
    }
}

pub open spec fn larger(a: usize, b: usize) -> usize {
    if a < b {
        b
    } else {
        a
    }
}

/// The larger of two sizes is one of them, and no smaller than either.
pub proof fn larger_is_larger(a: usize, b: usize)
    ensures
        larger(a, b) == a || larger(a, b) == b,
        larger(a, b) >= a,
        larger(a, b) >= b,
{
}

fn larger_of(a: usize, b: usize) -> (r: usize)
    ensures
        r == larger(a, b),
{
    if a < b {
        b
    } else {
        a
    }
}

impl EncodeLocalStats {
    /// Takes account of the tensors of one batch.
    pub fn update_batch(
        &mut self,
        emb_batch_bytes: usize,
        score_est_bytes: usize,
        code_batch_bytes: usize,
        recon_bytes: usize,
        residual_float_bytes: usize,
        residual_bucketized_bytes: usize,
        residual_bits_bytes: usize,
        residual_packed_bytes: usize,
    )
        requires
            emb_batch_bytes + score_est_bytes + code_batch_bytes + recon_bytes
                + residual_float_bytes + residual_bucketized_bytes + residual_bits_bytes
                + residual_packed_bytes <= usize::MAX,
        ensures
            *final(self) == (EncodeLocalStats {
                max_emb_batch_bytes: larger(old(self).max_emb_batch_bytes, emb_batch_bytes),
                max_score_est_bytes: larger(old(self).max_score_est_bytes, score_est_bytes),
                max_code_batch_bytes: larger(old(self).max_code_batch_bytes, code_batch_bytes),
                max_recon_bytes: larger(old(self).max_recon_bytes, recon_bytes),
                max_residual_float_bytes: larger(
                    old(self).max_residual_float_bytes,
                    residual_float_bytes,
                ),
                max_residual_bucketized_bytes: larger(
                    old(self).max_residual_bucketized_bytes,
                    residual_bucketized_bytes,
                ),
                max_residual_bits_bytes: larger(
                    old(self).max_residual_bits_bytes,
                    residual_bits_bytes,
                ),
                max_residual_packed_bytes: larger(
                    old(self).max_residual_packed_bytes,
                    residual_packed_bytes,
                ),
                max_working_set_est_bytes: larger(
                    old(self).max_working_set_est_bytes,
                    (emb_batch_bytes + score_est_bytes + code_batch_bytes + recon_bytes
                        + residual_float_bytes + residual_bucketized_bytes + residual_bits_bytes
                        + residual_packed_bytes) as usize,
                ),
            }),
    {
        self.max_emb_batch_bytes = larger_of(self.max_emb_batch_bytes, emb_batch_bytes);
        self.max_score_est_bytes = larger_of(self.max_score_est_bytes, score_est_bytes);
        self.max_code_batch_bytes = larger_of(self.max_code_batch_bytes, code_batch_bytes);
        self.max_recon_bytes = larger_of(self.max_recon_bytes, recon_bytes);
        self.max_residual_float_bytes =
        larger_of(self.max_residual_float_bytes, residual_float_bytes);
        self.max_residual_bucketized_bytes =
        larger_of(self.max_residual_bucketized_bytes, residual_bucketized_bytes);
        self.max_residual_bits_bytes = larger_of(self.max_residual_bits_bytes, residual_bits_bytes);
        self.max_residual_packed_bytes =
        larger_of(self.max_residual_packed_bytes, residual_packed_bytes);

        // Rough upper bound of simultaneously-live tensors in the hot loop.
        let working_est: usize = emb_batch_bytes + score_est_bytes + code_batch_bytes + recon_bytes
            + residual_float_bytes + residual_bucketized_bytes + residual_bits_bytes
            + residual_packed_bytes;
        self.max_working_set_est_bytes = larger_of(self.max_working_set_est_bytes, working_est);
    }
}

/// The ranges that rows are split into, as start and length: batches of the
/// given size, and one empty range where there are no rows.
pub fn split_rows(rows: usize, size: usize) -> (r: Vec<(usize, usize)>)
    requires
        0 < size,
    ensures
        rows == 0 ==> r@ == seq![(0usize, 0usize)],
        rows > 0 ==> batching::are_batches(r@, rows as int, size as int),
{
    if rows == 0 {
        let mut r: Vec<(usize, usize)> = Vec::new();
        r.push((0, 0));
        assert(r@ =~= seq![(0usize, 0usize)]);
        return r;
    }
    batching::batch_ranges(rows, size)
}

/// Documents that are encoded together: those from `first_doc` to `end_doc`,
/// which have `rows` embeddings.
#[derive(Debug, Clone, Copy, PartialEq, Eq, Structural)]
pub struct MicroBatch {
    pub first_doc: usize,
    pub end_doc: usize,
    pub rows: i64,
}

/// The batches of documents from `first` on, of which those before `i` are
/// taken already: a batch ends as soon as it has `size` embeddings.
pub open spec fn micro_plan(doc_rows: Seq<i64>, size: int, first: int, i: int) -> Seq<MicroBatch>
    decreases doc_rows.len() - i,
{
    if i >= doc_rows.len() {
        if first < i {
            seq![micro_batch(doc_rows, first, i)]
        } else {
            Seq::empty()
        }
    } else if types::range_sum(doc_rows, first, i + 1) < size {
        micro_plan(doc_rows, size, first, i + 1)
    } else {
        seq![micro_batch(doc_rows, first, i + 1)] + micro_plan(doc_rows, size, i + 1, i + 1)
    }
}

/// The documents from `first` to `end`.
pub open spec fn micro_batch(doc_rows: Seq<i64>, first: int, end: int) -> MicroBatch {
    MicroBatch {
        first_doc: first as usize,
        end_doc: end as usize,
        rows: types::range_sum(doc_rows, first, end) as i64,
    }
}

/// The documents have embeddings in numbers that can be summed up.
pub open spec fn rows_fit(doc_rows: Seq<i64>) -> bool {
    &&& forall|d: int| 0 <= d < doc_rows.len() ==> 0 <= #[trigger] doc_rows[d]
    &&& types::range_sum(doc_rows, 0, doc_rows.len() as int) <= i64::MAX
}

pub proof fn part_sums(doc_rows: Seq<i64>, lo: int, hi: int, n: int)
    requires
        0 <= lo <= hi <= n <= doc_rows.len(),
        forall|d: int| 0 <= d < doc_rows.len() ==> 0 <= #[trigger] doc_rows[d],
    ensures
        0 <= types::range_sum(doc_rows, lo, hi) <= types::range_sum(doc_rows, 0, n),
    decreases n,
{
    if hi < n {
        part_sums(doc_rows, lo, hi, n - 1);
    } else if lo < hi {
        part_sums(doc_rows, lo, hi - 1, n - 1);
    } else if 0 < n {
        part_sums(doc_rows, n - 1, n - 1, n - 1);
    }
}

/// Stream docs into bounded microbatches to avoid materializing a full chunk
/// on the device.
pub fn micro_batches(doc_rows: &Vec<i64>, emb_batch_size: i64) -> (r: Vec<MicroBatch>)
    requires
        rows_fit(doc_rows@),
    ensures
        r@ == micro_plan(doc_rows@, emb_batch_size as int, 0, 0),
{
    let mut r: Vec<MicroBatch> = Vec::new();
    let mut first: usize = 0;
    let mut rows: i64 = 0;
    let mut i: usize = 0;
    let ghost goal = micro_plan(doc_rows@, emb_batch_size as int, 0, 0);
    assert(r@ + goal =~= goal);
    while i < doc_rows.len()
        invariant
            first <= i <= doc_rows@.len(),
            rows_fit(doc_rows@),
            rows == types::range_sum(doc_rows@, first as int, i as int),
            goal == r@ + micro_plan(doc_rows@, emb_batch_size as int, first as int, i as int),
        decreases doc_rows@.len() - i,
    {
        proof {
            part_sums(doc_rows@, first as int, i + 1, doc_rows@.len() as int);
        }
        rows = rows + doc_rows[i];
        if rows >= emb_batch_size {
            let ghost before = r@;
            let batch = MicroBatch { first_doc: first, end_doc: i + 1, rows };
            r.push(batch);
            proof {
                let rest = micro_plan(doc_rows@, emb_batch_size as int, i + 1, i + 1);
                assert(before + (seq![batch] + rest) =~= r@ + rest);
            }
            first = i + 1;
            rows = 0;
        }
        i += 1;
    }
    if first < doc_rows.len() {
        let ghost before = r@;
        let batch = MicroBatch { first_doc: first, end_doc: i, rows };
        r.push(batch);
        assert(before + seq![batch] =~= r@);
    } else {
        assert(r@ + Seq::<MicroBatch>::empty() =~= r@);
    }
    r
}

/// The batches take all documents, one after the other; each but the last has
/// at least `size` embeddings, and each less than that without its last document.
pub proof fn micro_batches_partition(doc_rows: Seq<i64>, size: int)
    requires
        rows_fit(doc_rows),
        0 < size,
        0 < doc_rows.len() <= usize::MAX,
    ensures
        ({
            let plan = micro_plan(doc_rows, size, 0, 0);
            let n = doc_rows.len();
            &&& plan.len() > 0
            &&& plan[0].first_doc == 0
            &&& plan.last().end_doc == n
            &&& forall|b: int|
                0 <= b < plan.len() ==> {
                    let p = #[trigger] plan[b];
                    &&& p.first_doc < p.end_doc <= n
                    &&& p.rows == types::range_sum(doc_rows, p.first_doc as int, p.end_doc as int)
                    &&& b + 1 < plan.len() ==> p.end_doc == plan[b + 1].first_doc
                    &&& b + 1 < plan.len() ==> size <= p.rows
                    &&& types::range_sum(doc_rows, p.first_doc as int, p.end_doc - 1) < size
                }
        }),
{
    partition_from(doc_rows, size, 0, 0);
}

proof fn partition_from(doc_rows: Seq<i64>, size: int, first: int, i: int)
    requires
        rows_fit(doc_rows),
        0 < size,
        0 <= first <= i <= doc_rows.len() <= usize::MAX,
        first < i ==> types::range_sum(doc_rows, first, i) < size,
    ensures
        ({
            let plan = micro_plan(doc_rows, size, first, i);
            let n = doc_rows.len();
            &&& first < n ==> plan.len() > 0 && plan[0].first_doc == first
            &&& first == n ==> plan.len() == 0
            &&& forall|b: int|
                0 <= b < plan.len() ==> {
                    let p = #[trigger] plan[b];
                    &&& p.first_doc < p.end_doc <= n
                    &&& p.rows == types::range_sum(doc_rows, p.first_doc as int, p.end_doc as int)
                    &&& p.end_doc == (if b + 1 < plan.len() {
                        plan[b + 1].first_doc as int
                    } else {
                        n as int
                    })
                    &&& b + 1 < plan.len() ==> size <= p.rows
                    &&& types::range_sum(doc_rows, p.first_doc as int, p.end_doc - 1) < size
                }
        }),
    decreases doc_rows.len() - i,
{
    let plan = micro_plan(doc_rows, size, first, i);
    if i >= doc_rows.len() {
        if first < i {
            part_sums(doc_rows, first, i, i);
            part_sums(doc_rows, first, i - 1, i);
        }
    } else {
        part_sums(doc_rows, first, i + 1, doc_rows.len() as int);
        if types::range_sum(doc_rows, first, i + 1) < size {
            partition_from(doc_rows, size, first, i + 1);
        } else {
            partition_from(doc_rows, size, i + 1, i + 1);
            let rest = micro_plan(doc_rows, size, i + 1, i + 1);
            assert forall|b: int| 0 <= b < plan.len() implies {
                let p = #[trigger] plan[b];
                &&& p.first_doc < p.end_doc <= doc_rows.len()
                &&& p.rows == types::range_sum(doc_rows, p.first_doc as int, p.end_doc as int)
                &&& p.end_doc == (if b + 1 < plan.len() {
                    plan[b + 1].first_doc as int
                } else {
                    doc_rows.len() as int
                })
                &&& b + 1 < plan.len() ==> size <= p.rows
                &&& types::range_sum(doc_rows, p.first_doc as int, p.end_doc - 1) < size
            } by {
                if b > 0 {
                    assert(plan[b] == rest[b - 1]);
                    if b + 1 < plan.len() {
                        assert(plan[b + 1] == rest[b]);
                    }
                } else if plan.len() > 1 {
                    assert(plan[1] == rest[0]);
                }
            }
        }
    }
}

/// How often `code` occurs among the first `n` codes.
pub open spec fn occurrences(codes: Seq<i64>, code: int, n: int) -> int
    decreases n,
{
    if n <= 0 {
        0
    } else {
        occurrences(codes, code, n - 1) + if codes[n - 1] == code {
            1int
        } else {
            0int
        }
    }
}

/// The counts with the occurrences among the first `n` codes added to them.
pub open spec fn counted(counts: Seq<i64>, codes: Seq<i64>, n: int) -> Seq<i64> {
    Seq::new(counts.len(), |c: int| (counts[c] + occurrences(codes, c, n)) as i64)
}

/// How many of the codes equal `code`.
pub open spec fn how_many(codes: Seq<i64>, code: int) -> nat {
    codes.filter(|x: i64| x == code).len()
}

/// A code occurs as often as the codes that equal it are many.
pub proof fn occurrences_are_counted(codes: Seq<i64>, code: int, n: int)
    requires
        0 <= n <= codes.len(),
    ensures
        occurrences(codes, code, n) == how_many(codes.take(n), code),
    decreases n,
{
    reveal(Seq::filter);
    if 0 < n {
        occurrences_are_counted(codes, code, n - 1);
        assert(codes.take(n).drop_last() =~= codes.take(n - 1));
    }
}

proof fn how_many_adds(a: Seq<i64>, b: Seq<i64>, code: int)
    ensures
        how_many(a + b, code) == how_many(a, code) + how_many(b, code),
        how_many(a + b, code) <= a.len() + b.len(),
{
    let same = |x: i64| x == code;
    Seq::filter_distributes_over_add(a, b, same);
    (a + b).lemma_filter_len(same);
}

proof fn sum_after_update(counts: Seq<i64>, c: int, n: int)
    requires
        0 <= c < counts.len(),
        0 <= n <= counts.len(),
        counts[c] < i64::MAX,
    ensures
        types::range_sum(counts.update(c, (counts[c] + 1) as i64), 0, n) == types::range_sum(
            counts,
            0,
            n,
        ) + if c < n {
            1int
        } else {
            0int
        },
    decreases n,
{
    if 0 < n {
        sum_after_update(counts, c, n - 1);
    }
}

proof fn element_in_sum(counts: Seq<i64>, c: int, n: int)
    requires
        0 <= c < n <= counts.len(),
        forall|d: int| 0 <= d < counts.len() ==> 0 <= #[trigger] counts[d],
    ensures
        counts[c] <= types::range_sum(counts, 0, n),
        0 <= types::range_sum(counts, 0, n),
    decreases n,
{
    if c < n - 1 {
        element_in_sum(counts, c, n - 1);
    } else if 0 < n - 1 {
        element_in_sum(counts, 0, n - 1);
    }
}

/// Counts that are not negative and can be summed up.
pub open spec fn counts_fit(counts: Seq<i64>) -> bool {
    &&& forall|c: int| 0 <= c < counts.len() ==> 0 <= #[trigger] counts[c]
    &&& types::range_sum(counts, 0, counts.len() as int) <= i64::MAX
}

/// Adds the number of times that each code occurs.
pub fn count_codes(counts: &mut Vec<i64>, codes: &Vec<i64>)
    requires
        counts_fit(old(counts)@),
        types::range_sum(old(counts)@, 0, old(counts)@.len() as int) + codes@.len() <= i64::MAX,
        forall|i: int| 0 <= i < codes@.len() ==> 0 <= #[trigger] codes@[i] < old(counts)@.len(),
    ensures
        final(counts)@ == counted(old(counts)@, codes@, codes@.len() as int),
        final(counts)@.len() == old(counts)@.len(),
        forall|c: int|
            0 <= c < old(counts)@.len() ==> #[trigger] final(counts)@[c] == old(counts)@[c]
                + how_many(codes@, c),
        counts_fit(final(counts)@),
        types::range_sum(final(counts)@, 0, final(counts)@.len() as int) == types::range_sum(
            old(counts)@,
            0,
            old(counts)@.len() as int,
        ) + codes@.len(),
{
    let ghost before = counts@;
    let ghost m = counts@.len() as int;
    let mut i: usize = 0;
    assert(counts@ =~= counted(before, codes@, 0));
    while i < codes.len()
        invariant
            i <= codes@.len(),
            counts@.len() == m,
            before.len() == m,
            counts_fit(counts@),
            types::range_sum(counts@, 0, m) == types::range_sum(before, 0, m) + i,
            types::range_sum(before, 0, m) + codes@.len() <= i64::MAX,
            forall|j: int| 0 <= j < codes@.len() ==> 0 <= #[trigger] codes@[j] < m,
            forall|c: int|
                0 <= c < m ==> #[trigger] counts@[c] == before[c] + occurrences(
                    codes@,
                    c,
                    i as int,
                ),
        decreases codes@.len() - i,
    {
        let ghost current = counts@;
        assert(0 <= codes@[i as int] < m);
        assert(m == counts.len());
        let code: usize = codes[i] as usize;
        proof {
            element_in_sum(counts@, code as int, m);
            sum_after_update(counts@, code as int, m);
        }
        let count: i64 = counts[code];
        counts.set(code, count + 1);
        assert(counts@ =~= current.update(code as int, (current[code as int] + 1) as i64));
        i += 1;
    }
    assert(counts@ =~= counted(before, codes@, codes@.len() as int));
    proof {
        assert(codes@.take(codes@.len() as int) =~= codes@);
        assert forall|c: int| 0 <= c < m implies #[trigger] counts@[c] == before[c]
            + how_many(codes@, c) by {
            occurrences_are_counted(codes@, c, codes@.len() as int);
        }
    }
}

/// Why documents cannot be encoded.
#[derive(Debug, Clone, Copy, PartialEq, Eq, Structural)]
pub enum EncodeError {
    /// There is not one passage ID for each document
    PassageIdCount { passage_ids: usize, num_docs: usize },
}

/// A chunk as it is written.
pub struct EncodedChunk {
    pub index: usize,
    pub data: ChunkData,
    pub meta: ChunkMeta,
}

/// The contents of packed residuals.
pub open spec fn row_texts(rows: Seq<Vec<u8>>) -> Seq<Seq<u8>> {
    rows.map_values(|row: Vec<u8>| row@)
}

/// The contents of a chunk as it is written.
pub struct ChunkContents {
    pub index: int,
    pub codes: Seq<i64>,
    pub residuals: Seq<Seq<u8>>,
    pub doclens: Seq<i64>,
    pub pids: Seq<i64>,
    pub meta: ChunkMeta,
}

impl View for EncodedChunk {
    type V = ChunkContents;

    open spec fn view(&self) -> ChunkContents {
        ChunkContents {
            index: self.index as int,
            codes: self.data.codes@,
            residuals: row_texts(self.data.residuals@),
            doclens: self.data.doclens@,
            pids: self.data.pids@,
            meta: self.meta,
        }
    }
}

/// The number of embeddings in the first `n` chunks.
pub open spec fn embeddings_before(stats: Seq<ChunkStats>, n: int) -> int
    decreases n,
{
    if n <= 0 {
        0
    } else {
        embeddings_before(stats, n - 1) + stats[n - 1].num_embeddings
    }
}

/// The IDs of the passages from `start` to `end`: those given, or their positions.
pub open spec fn passages(ids: Option<Seq<i64>>, start: int, end: int) -> Seq<i64> {
    match ids {
        Some(p) => p.subrange(start, end),
        None => Seq::new((end - start) as nat, |i: int| (start + i) as i64),
    }
}

/// Encodes documents chunk by chunk. The batches of a chunk are added as they
/// are encoded, and the chunk is finished with the lengths of its documents.
pub struct ChunkEncoder<S> {
    /// One ID for each document, or none to number the documents
    pub passage_ids: Option<Vec<i64>>,
    /// The number of the first chunk
    pub start_chunk_idx: usize,
    /// Whether residual norms are collected
    pub collect_norms: bool,
    /// The chunks finished so far
    pub chunk_stats: Vec<ChunkStats>,
    /// The number of embeddings in them
    pub current_emb_offset: usize,
    /// The number of documents in them
    pub passage_offset: usize,
    /// The number of embeddings so far
    pub total_embeddings: i64,
    /// The number of embeddings of each centroid so far
    pub global_counts: Vec<i64>,
    /// The residual norms so far
    pub all_norms: Vec<S>,
    /// The codes of the current chunk
    pub codes: Vec<i64>,
    /// The packed residuals of the current chunk
    pub residuals: Vec<Vec<u8>>,
}

/// What an encoder has encoded: all that it holds, as sequences and numbers.
pub struct Encoding<S> {
    pub passage_ids: Option<Seq<i64>>,
    pub start_chunk_idx: int,
    pub collect_norms: bool,
    pub chunk_stats: Seq<ChunkStats>,
    pub current_emb_offset: int,
    pub passage_offset: int,
    pub total_embeddings: int,
    pub global_counts: Seq<i64>,
    pub norms: Seq<S>,
    pub codes: Seq<i64>,
    pub residuals: Seq<Seq<u8>>,
}

/// The contents of optional IDs.
pub open spec fn optional_ids(ids: Option<Vec<i64>>) -> Option<Seq<i64>> {
    match ids {
        Some(p) => Some(p@),
        None => None,
    }
}

impl<S> View for ChunkEncoder<S> {
    type V = Encoding<S>;

    open spec fn view(&self) -> Encoding<S> {
        Encoding {
            passage_ids: optional_ids(self.passage_ids),
            start_chunk_idx: self.start_chunk_idx as int,
            collect_norms: self.collect_norms,
            chunk_stats: self.chunk_stats@,
            current_emb_offset: self.current_emb_offset as int,
            passage_offset: self.passage_offset as int,
            total_embeddings: self.total_embeddings as int,
            global_counts: self.global_counts@,
            norms: self.all_norms@,
            codes: self.codes@,
            residuals: row_texts(self.residuals@),
        }
    }
}

impl<S> Encoding<S> {
    /// Nothing encoded yet.
    pub open spec fn nothing(
        passage_ids: Option<Seq<i64>>,
        num_centroids: nat,
        start_chunk_idx: int,
        collect_norms: bool,
    ) -> Self {
        Encoding {
            passage_ids,
            start_chunk_idx,
            collect_norms,
            chunk_stats: Seq::empty(),
            current_emb_offset: 0,
            passage_offset: 0,
            total_embeddings: 0,
            global_counts: Seq::new(num_centroids, |c: int| 0i64),
            norms: Seq::empty(),
            codes: Seq::empty(),
            residuals: Seq::empty(),
        }
    }

    /// A batch added to the current chunk.
    pub open spec fn with_batch(
        self,
        codes: Seq<i64>,
        residuals: Seq<Seq<u8>>,
        norms: Seq<S>,
    ) -> Self {
        Encoding {
            total_embeddings: self.total_embeddings + codes.len(),
            global_counts: counted(self.global_counts, codes, codes.len() as int),
            norms: if self.collect_norms {
                self.norms + norms
            } else {
                self.norms
            },
            codes: self.codes + codes,
            residuals: self.residuals + residuals,
            ..self
        }
    }

    /// The current chunk, of documents with the given lengths.
    pub open spec fn chunk(self, doclens: Seq<i64>) -> ChunkContents {
        ChunkContents {
            index: self.start_chunk_idx + self.chunk_stats.len(),
            codes: self.codes,
            residuals: self.residuals,
            doclens,
            pids: passages(
                self.passage_ids,
                self.passage_offset,
                self.passage_offset + doclens.len(),
            ),
            meta: ChunkMeta {
                passage_offset: Some(self.passage_offset as usize),
                num_passages: doclens.len() as usize,
                num_embeddings: self.codes.len() as usize,
                embedding_offset: self.current_emb_offset as usize,
            },
        }
    }

    /// The current chunk finished, with as many documents.
    pub open spec fn with_chunk(self, num_docs: nat) -> Self {
        Encoding {
            chunk_stats: self.chunk_stats.push(
                ChunkStats {
                    embedding_offset: self.current_emb_offset as usize,
                    num_embeddings: self.codes.len() as usize,
                },
            ),
            current_emb_offset: self.current_emb_offset + self.codes.len(),
            passage_offset: self.passage_offset + num_docs,
            codes: Seq::empty(),
            residuals: Seq::empty(),
            ..self
        }
    }
}

impl<S: Score> ChunkEncoder<S> {
    /// Every embedding is accounted for once: in the chunks' numbers and
    /// offsets, in the total and in the centroids' counts, and with a residual,
    /// and a norm where norms are collected.
    pub open spec fn wf(self) -> bool {
        &&& forall|i: int|
            0 <= i < self.chunk_stats@.len() ==> (
            #[trigger] self.chunk_stats@[i]).embedding_offset == embeddings_before(
                self.chunk_stats@,
                i,
            )
        &&& self.current_emb_offset == embeddings_before(
            self.chunk_stats@,
            self.chunk_stats@.len() as int,
        )
        &&& self.total_embeddings == self.current_emb_offset + self.codes@.len()
        &&& counts_fit(self.global_counts@)
        &&& types::range_sum(self.global_counts@, 0, self.global_counts@.len() as int)
            == self.total_embeddings
        &&& self.residuals@.len() == self.codes@.len()
        &&& self.all_norms@.len() == if self.collect_norms {
            self.total_embeddings as int
        } else {
            0
        }
        &&& self.passage_ids matches Some(p) ==> self.passage_offset <= p@.len()
    }

    /// Starts encoding, where there is one passage ID for each document, or none.
    pub fn new(
        passage_ids: Option<Vec<i64>>,
        num_docs: usize,
        num_centroids: usize,
        start_chunk_idx: usize,
        collect_norms: bool,
    ) -> (r: Result<Self, EncodeError>)
        ensures
            match r {
                Ok(e) => {
                    &&& passage_ids matches Some(p) ==> p@.len() == num_docs
                    &&& e.wf()
                    &&& e@ == Encoding::<S>::nothing(
                        optional_ids(passage_ids),
                        num_centroids as nat,
                        start_chunk_idx as int,
                        collect_norms,
                    )
                },
                Err(EncodeError::PassageIdCount { passage_ids: n, num_docs: d }) => passage_ids
                    matches Some(p) && n == p@.len() && d == num_docs && n != d,
            },
    {
        if let Some(p) = &passage_ids {
            if p.len() != num_docs {
                return Err(EncodeError::PassageIdCount { passage_ids: p.len(), num_docs });
            }
        }
        let mut global_counts: Vec<i64> = Vec::new();
        let mut c: usize = 0;
        while c < num_centroids
            invariant
                c <= num_centroids,
                global_counts@ == Seq::new(c as nat, |i: int| 0i64),
                types::range_sum(global_counts@, 0, c as int) == 0,
            decreases num_centroids - c,
        {
            let ghost before = global_counts@;
            global_counts.push(0);
            c += 1;
            proof {
                assert(global_counts@ =~= Seq::new(c as nat, |i: int| 0i64));
                same_sums(before, global_counts@, c - 1);
            }
        }
        let e = ChunkEncoder {
            passage_ids,
            start_chunk_idx,
            collect_norms,
            chunk_stats: Vec::new(),
            current_emb_offset: 0,
            passage_offset: 0,
            total_embeddings: 0,
            global_counts,
            all_norms: Vec::new(),
            codes: Vec::new(),
            residuals: Vec::new(),
        };
        assert(e@.residuals =~= Seq::empty());
        Ok(e)
    }

    /// Adds a batch to the current chunk: the codes of its embeddings, their
    /// packed residuals, and the norms of these.
    pub fn add_batch(&mut self, codes: &Vec<i64>, residuals: Vec<Vec<u8>>, norms: &Vec<S>)
        requires
            old(self).wf(),
            forall|i: int|
                0 <= i < codes@.len() ==> 0 <= #[trigger] codes@[i]
                    < old(self).global_counts@.len(),
            residuals@.len() == codes@.len(),
            old(self).collect_norms ==> norms@.len() == codes@.len(),
            old(self).total_embeddings + codes@.len() <= i64::MAX,
        ensures
            final(self).wf(),
            final(self)@ == old(self)@.with_batch(codes@, row_texts(residuals@), norms@),
            final(self).codes@ == old(self).codes@ + codes@,
            final(self).residuals@ == old(self).residuals@ + residuals@,
            final(self).total_embeddings == old(self).total_embeddings + codes@.len(),
            old(self).collect_norms ==> final(self).all_norms@ == old(self).all_norms@ + norms@,
    {
        let n: usize = codes.len();
        assert(old(self).total_embeddings + n <= i64::MAX);
        count_codes(&mut self.global_counts, codes);
        let mut i: usize = 0;
        while i < codes.len()
            invariant
                i <= codes@.len(),
                codes@.len() == n,
                residuals@.len() == n,
                old(self).collect_norms ==> norms@.len() == n,
                self.collect_norms == old(self).collect_norms,
                self.codes@ == old(self).codes@ + codes@.take(i as int),
                self.all_norms@ == old(self).all_norms@ + if old(self).collect_norms {
                    norms@.take(i as int)
                } else {
                    Seq::empty()
                },
                self.residuals == old(self).residuals,
                self.passage_ids == old(self).passage_ids,
                self.start_chunk_idx == old(self).start_chunk_idx,
                self.chunk_stats == old(self).chunk_stats,
                self.current_emb_offset == old(self).current_emb_offset,
                self.passage_offset == old(self).passage_offset,
                self.total_embeddings == old(self).total_embeddings,
                self.global_counts@ == counted(
                    old(self).global_counts@,
                    codes@,
                    codes@.len() as int,
                ),
                counts_fit(self.global_counts@),
                types::range_sum(self.global_counts@, 0, self.global_counts@.len() as int)
                    == old(self).total_embeddings + n,
            decreases codes@.len() - i,
        {
            self.codes.push(codes[i]);
            if self.collect_norms {
                self.all_norms.push(norms[i]);
            }
            i += 1;
            assert(self.codes@ =~= old(self).codes@ + codes@.take(i as int));
            assert(self.all_norms@ =~= old(self).all_norms@ + if old(self).collect_norms {
                norms@.take(i as int)
            } else {
                Seq::empty()
            });
        }
        assert(codes@.take(n as int) =~= codes@);
        if self.collect_norms {
            assert(norms@.take(n as int) =~= norms@);
        }
        let ghost rows = residuals@;
        let mut residuals = residuals;
        self.residuals.append(&mut residuals);
        self.total_embeddings = self.total_embeddings + n as i64;
        assert(row_texts(self.residuals@) =~= row_texts(old(self).residuals@) + row_texts(rows));
    }

    /// Finishes the current chunk, given the lengths of its documents.
    pub fn finish_chunk(&mut self, doclens: Vec<i64>) -> (r: EncodedChunk)
        requires
            old(self).wf(),
            0 < doclens@.len(),
            old(self).start_chunk_idx + old(self).chunk_stats@.len() <= usize::MAX,
            old(self).current_emb_offset + old(self).codes@.len() <= usize::MAX,
            match old(self).passage_ids {
                Some(p) => old(self).passage_offset + doclens@.len() <= p@.len(),
                None => old(self).passage_offset + doclens@.len() <= i64::MAX,
            },
            old(self).passage_offset + doclens@.len() <= usize::MAX,
        ensures
            final(self).wf(),
            r@ == old(self)@.chunk(doclens@),
            r.index == old(self).start_chunk_idx + old(self).chunk_stats@.len(),
            r.data.codes@ == old(self).codes@,
            r.data.residuals@ == old(self).residuals@,
            r.data.doclens@ == doclens@,
            r.data.pids@.len() == doclens@.len(),
            forall|d: int|
                0 <= d < doclens@.len() ==> #[trigger] r.data.pids@[d] == match old(
                    self,
                ).passage_ids {
                    Some(p) => p@[old(self).passage_offset + d] as int,
                    None => old(self).passage_offset + d,
                },
            r.meta.num_passages == doclens@.len(),
            r.meta.num_embeddings == r.data.codes@.len(),
            r.meta.passage_offset == Some(old(self).passage_offset),
            r.meta.embedding_offset == old(self).current_emb_offset,
            final(self).codes@.len() == 0,
            final(self).residuals@.len() == 0,
            final(self).passage_offset == old(self).passage_offset + doclens@.len(),
            final(self).current_emb_offset == old(self).current_emb_offset + old(self).codes@.len(),
            final(self).total_embeddings == old(self).total_embeddings,
            final(self)@ == old(self)@.with_chunk(doclens@.len()),
    {
        let index: usize = self.start_chunk_idx + self.chunk_stats.len();
        let num_passages: usize = doclens.len();
        let num_embeddings: usize = self.codes.len();
        let start: usize = self.passage_offset;
        let end: usize = start + num_passages;
        let mut pids: Vec<i64> = Vec::new();
        let mut i: usize = start;
        while i < end
            invariant
                start <= i <= end,
                match self.passage_ids {
                    Some(p) => end <= p@.len(),
                    None => end <= i64::MAX,
                },
                pids@ == passages(optional_ids(self.passage_ids), start as int, i as int),
                *self == *old(self),
            decreases end - i,
        {
            let pid: i64 = match &self.passage_ids {
                Some(p) => p[i],
                None => i as i64,
            };
            pids.push(pid);
            i += 1;
            assert(pids@ =~= passages(
                optional_ids(self.passage_ids),
                start as int,
                i as int,
            ));
        }
        let mut codes: Vec<i64> = Vec::new();
        let mut residuals: Vec<Vec<u8>> = Vec::new();
        std::mem::swap(&mut codes, &mut self.codes);
        std::mem::swap(&mut residuals, &mut self.residuals);
        let embedding_offset: usize = self.current_emb_offset;
        let ghost before = self.chunk_stats@;
        self.chunk_stats.push(ChunkStats { embedding_offset, num_embeddings });
        self.current_emb_offset = embedding_offset + num_embeddings;
        self.passage_offset = end;
        proof {
            assert(self@.codes =~= Seq::empty());
            assert(self@.residuals =~= Seq::empty());
            assert forall|n: int| 0 <= n <= before.len() implies #[trigger] embeddings_before(
                self.chunk_stats@,
                n,
            ) == embeddings_before(before, n) by {
                same_embeddings_before(before, self.chunk_stats@, n);
            }
            assert forall|j: int| 0 <= j < self.chunk_stats@.len() implies (
            #[trigger] self.chunk_stats@[j]).embedding_offset == embeddings_before(
                self.chunk_stats@,
                j,
            ) by {
                if j < before.len() {
                    assert(self.chunk_stats@[j] == before[j]);
                }
            }
        }
        EncodedChunk {
            index,
            data: ChunkData { codes, residuals, doclens, pids },
            meta: ChunkMeta {
                passage_offset: Some(start),
                num_passages,
                num_embeddings,
                embedding_offset,
            },
        }
    }

    /// `r` is what was encoded, with the norms where they were collected.
    pub open spec fn gives(self, r: EncodeResult<S>) -> bool {
        &&& r.chunk_stats == self.chunk_stats
        &&& r.total_embeddings == self.total_embeddings
        &&& r.global_centroid_counts == self.global_counts
        &&& r.residual_norms == if self.collect_norms {
            Some(self.all_norms)
        } else {
            None
        }
    }

    /// What was encoded.
    pub fn finish(self) -> (r: EncodeResult<S>)
        requires
            self.wf(),
        ensures
            self.gives(r),
            r.chunk_stats@ == self@.chunk_stats,
            r.total_embeddings == self@.total_embeddings,
            r.global_centroid_counts@ == self@.global_counts,
            r.residual_norms is Some <==> self.collect_norms,
            r.residual_norms matches Some(n) ==> n@ == self@.norms,
            types::range_sum(
                r.global_centroid_counts@,
                0,
                r.global_centroid_counts@.len() as int,
            ) == r.total_embeddings,
    {
        let residual_norms = if self.collect_norms {
            Some(self.all_norms)
        } else {
            None
        };
        EncodeResult {
            chunk_stats: self.chunk_stats,
            total_embeddings: self.total_embeddings,
            global_centroid_counts: self.global_counts,
            residual_norms,
        }
    }
}

/// A step of an encoder.
pub enum EncodeStep<S> {
    /// A batch was added
    Batch { codes: Seq<i64>, residuals: Seq<Seq<u8>>, norms: Seq<S> },
    /// A chunk was finished
    Chunk { doclens: Seq<i64> },
}

/// What an encoder has encoded after the steps.
pub open spec fn encoded<S>(start: Encoding<S>, steps: Seq<EncodeStep<S>>) -> Encoding<S>
    decreases steps.len(),
{
    if steps.len() == 0 {
        start
    } else {
        let before = encoded(start, steps.drop_last());
        match steps.last() {
            EncodeStep::Batch { codes, residuals, norms } => before.with_batch(
                codes,
                residuals,
                norms,
            ),
            EncodeStep::Chunk { doclens } => before.with_chunk(doclens.len()),
        }
    }
}

/// The chunks that an encoder writes in the steps.
pub open spec fn written<S>(start: Encoding<S>, steps: Seq<EncodeStep<S>>) -> Seq<ChunkContents>
    decreases steps.len(),
{
    if steps.len() == 0 {
        Seq::empty()
    } else {
        let before = written(start, steps.drop_last());
        match steps.last() {
            EncodeStep::Batch { .. } => before,
            EncodeStep::Chunk { doclens } => before.push(
                encoded(start, steps.drop_last()).chunk(doclens),
            ),
        }
    }
}

/// The norms of all batches, one after the other.
pub open spec fn norms_of<S>(steps: Seq<EncodeStep<S>>) -> Seq<S>
    decreases steps.len(),
{
    if steps.len() == 0 {
        Seq::empty()
    } else {
        let before = norms_of(steps.drop_last());
        match steps.last() {
            EncodeStep::Batch { norms, .. } => before + norms,
            EncodeStep::Chunk { .. } => before,
        }
    }
}

impl<S> Encoding<S> {
    /// The same but for norms and whether they are collected.
    pub open spec fn same_but_norms(self, other: Self) -> bool {
        self == (Encoding { collect_norms: self.collect_norms, norms: self.norms, ..other })
    }
}

/// Encoding with and without norms writes the same chunks, and accounts for the
/// embeddings alike. With norms, the norms come in the order of the embeddings.
pub proof fn norms_change_no_chunk<S>(
    passage_ids: Option<Seq<i64>>,
    num_centroids: nat,
    start_chunk_idx: int,
    steps: Seq<EncodeStep<S>>,
)
    ensures
        ({
            let without = Encoding::<S>::nothing(
                passage_ids,
                num_centroids,
                start_chunk_idx,
                false,
            );
            let with = Encoding::<S>::nothing(passage_ids, num_centroids, start_chunk_idx, true);
            &&& written(without, steps) == written(with, steps)
            &&& encoded(without, steps).same_but_norms(encoded(with, steps))
            &&& !encoded(without, steps).collect_norms
            &&& encoded(with, steps).collect_norms
            &&& encoded(with, steps).norms == norms_of(steps)
        }),
    decreases steps.len(),
{
    if steps.len() > 0 {
        norms_change_no_chunk(passage_ids, num_centroids, start_chunk_idx, steps.drop_last());
    }
}

/// What two encoders return that made the same steps, one collecting norms and
/// the other not, is the same but for the norms: none on the one side, on the
/// other one for each embedding, in the order of the embeddings.
pub proof fn norms_change_no_result<S: Score>(
    passage_ids: Option<Seq<i64>>,
    num_centroids: nat,
    start_chunk_idx: int,
    steps: Seq<EncodeStep<S>>,
    without: ChunkEncoder<S>,
    with: ChunkEncoder<S>,
    a: EncodeResult<S>,
    b: EncodeResult<S>,
)
    requires
        without.wf(),
        with.wf(),
        without@ == encoded(
            Encoding::<S>::nothing(passage_ids, num_centroids, start_chunk_idx, false),
            steps,
        ),
        with@ == encoded(
            Encoding::<S>::nothing(passage_ids, num_centroids, start_chunk_idx, true),
            steps,
        ),
        without.gives(a),
        with.gives(b),
    ensures
        a.chunk_stats@ == b.chunk_stats@,
        a.total_embeddings == b.total_embeddings,
        a.global_centroid_counts@ == b.global_centroid_counts@,
        a.residual_norms is None,
        b.residual_norms matches Some(v) && v@ == norms_of(steps) && v@.len()
            == b.total_embeddings,
{
    norms_change_no_chunk(passage_ids, num_centroids, start_chunk_idx, steps);
}

/// The codes of all batches, one after the other.
pub open spec fn codes_of<S>(steps: Seq<EncodeStep<S>>) -> Seq<i64>
    decreases steps.len(),
{
    if steps.len() == 0 {
        Seq::empty()
    } else {
        let before = codes_of(steps.drop_last());
        match steps.last() {
            EncodeStep::Batch { codes, .. } => before + codes,
            EncodeStep::Chunk { .. } => before,
        }
    }
}

/// The packed residuals of all batches, one after the other.
pub open spec fn residuals_of<S>(steps: Seq<EncodeStep<S>>) -> Seq<Seq<u8>>
    decreases steps.len(),
{
    if steps.len() == 0 {
        Seq::empty()
    } else {
        let before = residuals_of(steps.drop_last());
        match steps.last() {
            EncodeStep::Batch { residuals, .. } => before + residuals,
            EncodeStep::Chunk { .. } => before,
        }
    }
}

/// The lengths of the documents of each finished chunk.
pub open spec fn doclens_of<S>(steps: Seq<EncodeStep<S>>) -> Seq<Seq<i64>>
    decreases steps.len(),
{
    if steps.len() == 0 {
        Seq::empty()
    } else {
        let before = doclens_of(steps.drop_last());
        match steps.last() {
            EncodeStep::Batch { .. } => before,
            EncodeStep::Chunk { doclens } => before.push(doclens),
        }
    }
}

/// Every embedding is written once, with its residual, in the order in which the
/// batches came: what the chunks hold, one after the other, and what the current
/// chunk holds, is what the batches brought. The documents of each chunk have the
/// lengths that it was finished with. The total counts all embeddings, and each
/// centroid's count those with its code.
pub proof fn written_chunks_hold_batches<S>(
    passage_ids: Option<Seq<i64>>,
    num_centroids: nat,
    start_chunk_idx: int,
    collect_norms: bool,
    steps: Seq<EncodeStep<S>>,
)
    requires
        codes_of(steps).len() <= i64::MAX,
    ensures
        ({
            let start = Encoding::<S>::nothing(
                passage_ids,
                num_centroids,
                start_chunk_idx,
                collect_norms,
            );
            let end = encoded(start, steps);
            let chunks = written(start, steps);
            &&& chunks.map_values(|c: ChunkContents| c.codes).flatten() + end.codes == codes_of(steps)
            &&& chunks.map_values(|c: ChunkContents| c.residuals).flatten() + end.residuals
                == residuals_of(steps)
            &&& chunks.map_values(|c: ChunkContents| c.doclens) == doclens_of(steps)
            &&& end.total_embeddings == codes_of(steps).len()
            &&& end.global_counts.len() == num_centroids
            &&& forall|c: int|
                0 <= c < num_centroids ==> #[trigger] end.global_counts[c] == how_many(
                    codes_of(steps),
                    c,
                )
        }),
    decreases steps.len(),
{
    let start = Encoding::<S>::nothing(passage_ids, num_centroids, start_chunk_idx, collect_norms);
    let codes = |c: ChunkContents| c.codes;
    let residuals = |c: ChunkContents| c.residuals;
    let doclens = |c: ChunkContents| c.doclens;
    let end = encoded(start, steps);
    let chunks = written(start, steps);
    reveal(Seq::filter);
    if steps.len() == 0 {
        assert(chunks.map_values(codes).flatten() + end.codes =~= codes_of(steps));
        assert(chunks.map_values(residuals).flatten() + end.residuals =~= residuals_of(steps));
        assert(chunks.map_values(doclens) =~= doclens_of(steps));
    } else {
        let earlier = steps.drop_last();
        written_chunks_hold_batches(
            passage_ids,
            num_centroids,
            start_chunk_idx,
            collect_norms,
            earlier,
        );
        let before = encoded(start, earlier);
        let done = written(start, earlier);
        match steps.last() {
            EncodeStep::Batch { codes: new_codes, residuals: new_residuals, .. } => {
                assert(chunks.map_values(codes).flatten() + end.codes =~= (done.map_values(
                    codes,
                ).flatten() + before.codes) + new_codes);
                assert(chunks.map_values(residuals).flatten() + end.residuals =~= (done.map_values(
                    residuals,
                ).flatten() + before.residuals) + new_residuals);
                assert forall|c: int| 0 <= c < num_centroids implies #[trigger] end.global_counts[c]
                    == how_many(codes_of(steps), c) by {
                    occurrences_are_counted(new_codes, c, new_codes.len() as int);
                    assert(new_codes.take(new_codes.len() as int) =~= new_codes);
                    how_many_adds(codes_of(earlier), new_codes, c);
                    assert(before.global_counts[c] == how_many(codes_of(earlier), c));
                }
            },
            EncodeStep::Chunk { doclens: lens } => {
                let chunk = before.chunk(lens);
                let (pc, pr) = (done.map_values(codes), done.map_values(residuals));
                assert(chunks.map_values(codes) =~= pc.push(chunk.codes));
                assert(chunks.map_values(residuals) =~= pr.push(chunk.residuals));
                assert(chunks.map_values(doclens) =~= done.map_values(doclens).push(lens));
                pc.lemma_flatten_push(chunk.codes);
                pr.lemma_flatten_push(chunk.residuals);
                assert(chunks.map_values(codes).flatten() + end.codes =~= pc.flatten()
                    + before.codes);
                assert(chunks.map_values(residuals).flatten() + end.residuals =~= pr.flatten()
                    + before.residuals);
            },
        }
    }
}

/// The chunks are numbered from the first one on, and their metadata, like what is
/// kept of them, counts their documents and embeddings and says where they start:
/// each where the one before it ends. Documents without given IDs are numbered.
pub proof fn written_chunks_follow_each_other<S>(
    passage_ids: Option<Seq<i64>>,
    num_centroids: nat,
    start_chunk_idx: int,
    collect_norms: bool,
    steps: Seq<EncodeStep<S>>,
)
    requires
        ({
            let end = encoded(
                Encoding::<S>::nothing(passage_ids, num_centroids, start_chunk_idx, collect_norms),
                steps,
            );
            &&& end.current_emb_offset <= usize::MAX
            &&& end.passage_offset <= usize::MAX
            &&& match passage_ids {
                Some(ids) => end.passage_offset <= ids.len(),
                None => end.passage_offset <= i64::MAX,
            }
        }),
    ensures
        ({
            let start = Encoding::<S>::nothing(
                passage_ids,
                num_centroids,
                start_chunk_idx,
                collect_norms,
            );
            let end = encoded(start, steps);
            let chunks = written(start, steps);
            let n = chunks.len();
            &&& end.passage_ids == passage_ids
            &&& end.start_chunk_idx == start_chunk_idx
            &&& end.chunk_stats.len() == n
            &&& forall|i: int|
                0 <= i < n ==> {
                    let c = #[trigger] chunks[i];
                    &&& c.index == start_chunk_idx + i
                    &&& c.meta.num_passages == c.doclens.len()
                    &&& c.meta.num_embeddings == c.codes.len()
                    &&& c.meta.passage_offset is Some
                    &&& i == 0 ==> c.meta.embedding_offset == 0 && c.meta.passage_offset == Some(
                        0usize,
                    )
                    &&& c.pids.len() == c.doclens.len()
                    &&& passage_ids is None ==> forall|d: int|
                        0 <= d < c.pids.len() ==> #[trigger] c.pids[d]
                            == c.meta.passage_offset->Some_0 + d
                    &&& passage_ids matches Some(ids) ==> forall|d: int|
                        0 <= d < c.pids.len() ==> #[trigger] c.pids[d]
                            == ids[c.meta.passage_offset->Some_0 + d]
                    &&& end.chunk_stats[i].num_embeddings == c.codes.len()
                    &&& end.chunk_stats[i].embedding_offset == c.meta.embedding_offset
                    &&& c.meta.embedding_offset + c.codes.len() == (if i + 1 < n {
                        chunks[i + 1].meta.embedding_offset as int
                    } else {
                        end.current_emb_offset
                    })
                    &&& c.meta.passage_offset->Some_0 + c.doclens.len() == (if i + 1 < n {
                        chunks[i + 1].meta.passage_offset->Some_0 as int
                    } else {
                        end.passage_offset
                    })
                }
            &&& n == 0 ==> end.current_emb_offset == 0 && end.passage_offset == 0
            &&& 0 <= end.current_emb_offset
            &&& 0 <= end.passage_offset
        }),
    decreases steps.len(),
{
    let start = Encoding::<S>::nothing(passage_ids, num_centroids, start_chunk_idx, collect_norms);
    if steps.len() > 0 {
        let earlier = steps.drop_last();
        let before = encoded(start, earlier);
        let end = encoded(start, steps);
        written_chunks_follow_each_other(
            passage_ids,
            num_centroids,
            start_chunk_idx,
            collect_norms,
            earlier,
        );
        if let EncodeStep::Chunk { doclens } = steps.last() {
            let done = written(start, earlier);
            let chunks = written(start, steps);
            let m = done.len() as int;
            assert(chunks == done.push(before.chunk(doclens)));
            assert forall|i: int| 0 <= i < m implies #[trigger] chunks[i] == done[i]
                && end.chunk_stats[i] == before.chunk_stats[i] by {}
            if 0 < m {
                assert(chunks[m - 1] == done[m - 1]);
            }
        }
    }
}

/// The IDs of the documents in the written chunks.
pub open spec fn written_ids(chunks: Seq<ChunkContents>) -> Seq<i64> {
    chunks.map_values(|c: ChunkContents| c.pids).flatten()
}

/// The documents of the written chunks have the given IDs, in their order, each
/// once.
pub proof fn written_ids_are_the_given<S>(
    ids: Seq<i64>,
    num_centroids: nat,
    start_chunk_idx: int,
    collect_norms: bool,
    steps: Seq<EncodeStep<S>>,
)
    requires
        encoded(
            Encoding::<S>::nothing(Some(ids), num_centroids, start_chunk_idx, collect_norms),
            steps,
        ).passage_offset <= ids.len(),
    ensures
        ({
            let start = Encoding::<S>::nothing(
                Some(ids),
                num_centroids,
                start_chunk_idx,
                collect_norms,
            );
            let end = encoded(start, steps);
            &&& end.passage_ids == Some(ids)
            &&& 0 <= end.passage_offset
            &&& end.chunk_stats.len() == written(start, steps).len()
            &&& written_ids(written(start, steps)) == ids.take(end.passage_offset)
        }),
    decreases steps.len(),
{
    let start = Encoding::<S>::nothing(Some(ids), num_centroids, start_chunk_idx, collect_norms);
    if steps.len() == 0 {
        assert(written_ids(written(start, steps)) =~= ids.take(0));
    } else {
        let earlier = steps.drop_last();
        written_ids_are_the_given(ids, num_centroids, start_chunk_idx, collect_norms, earlier);
        if let EncodeStep::Chunk { doclens } = steps.last() {
            let before = encoded(start, earlier);
            let chunk = before.chunk(doclens);
            let parts = written(start, earlier).map_values(|c: ChunkContents| c.pids);
            assert(written(start, steps).map_values(|c: ChunkContents| c.pids) =~= parts.push(
                chunk.pids,
            ));
            parts.lemma_flatten_push(chunk.pids);
            assert(written_ids(written(start, steps)) =~= ids.take(
                encoded(start, steps).passage_offset,
            ));
        }
    }
}

proof fn same_sums(a: Seq<i64>, b: Seq<i64>, n: int)
    requires
        0 <= n <= a.len(),
        n <= b.len(),
        forall|i: int| 0 <= i < n ==> a[i] == #[trigger] b[i],
    ensures
        types::range_sum(a, 0, n) == types::range_sum(b, 0, n),
    decreases n,
{
    if 0 < n {
        same_sums(a, b, n - 1);
    }
}

proof fn same_embeddings_before(a: Seq<ChunkStats>, b: Seq<ChunkStats>, n: int)
    requires
        0 <= n <= a.len(),
        n <= b.len(),
        forall|i: int| 0 <= i < n ==> a[i] == #[trigger] b[i],
    ensures
        embeddings_before(a, n) == embeddings_before(b, n),
    decreases n,
{
    if 0 < n {
        same_embeddings_before(a, b, n - 1);
    }
}

} // verus!
