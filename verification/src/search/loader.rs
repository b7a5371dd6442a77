//! Loading of an index, whole or in shards, from its parts.

use crate::search::scorer;
use crate::utils::types;
use crate::utils::types::{
    CentroidId, Device, IndexMetadata, Kind, LoadedIndex, ShardConfig, ShardedIndex,
};
use vstd::prelude::*;

verus! {

/// Why an index cannot be loaded.
#[derive(Debug)]
pub enum LoadError {
    /// The index path does not exist
    NotFound(String),
    /// The index path is not a directory
    NotADirectory(String),
    /// Memory-mapping is only supported on CPU
    MmapNeedsCpu,
    /// The metadata has no number of shards
    NotSharded,
    /// The metadata has no shard boundaries
    MissingBoundaries,
    /// The number of boundaries is not one more than the number of shards
    BoundariesLength { length: usize, num_shards: usize },
    /// The number of devices is not the number of shards
    DeviceCount { num_shards: usize, devices: usize },
    /// The directory of a shard does not exist
    MissingShard(usize),
}

/// Whether tensors can be memory-mapped as asked, or need not be.
pub fn mmap_supported(use_mmap: bool, device: Device) -> (r: bool)
    ensures
        r == (use_mmap ==> device == Device::Cpu),
{
    !use_mmap || device == Device::Cpu
}

/// The shards that are memory-mapped: those on the CPU, where mapping is asked for.
pub open spec fn mapped(use_mmap: bool, devices: Seq<Device>) -> Seq<bool> {
    devices.map_values(|d: Device| use_mmap && d == Device::Cpu)
}

/// Which shards are memory-mapped. The others are read into the memory of their
/// devices.
pub fn mapped_shards(use_mmap: bool, devices: &Vec<Device>) -> (r: Vec<bool>)
    ensures
        r@ == mapped(use_mmap, devices@),
{
    let mut r: Vec<bool> = Vec::new();
    let mut s: usize = 0;
    while s < devices.len()
        invariant
            s <= devices@.len(),
            r@ == mapped(use_mmap, devices@.take(s as int)),
        decreases devices@.len() - s,
    {
        r.push(use_mmap && devices[s] == Device::Cpu);
        s += 1;
        assert(r@ =~= mapped(use_mmap, devices@.take(s as int)));
    }
    assert(devices@.take(s as int) =~= devices@);
    r
}

/// A shard is mapped exactly where mapping is asked for and it is on the CPU.
pub proof fn mapped_shards_are_on_cpu(use_mmap: bool, devices: Seq<Device>)
    ensures
        mapped(use_mmap, devices).len() == devices.len(),
        forall|s: int|
            0 <= s < devices.len() ==> #[trigger] mapped(use_mmap, devices)[s] == (use_mmap
                && devices[s] == Device::Cpu),
{
}

/// The file that holds the compacted residuals: the repacked one where it exists.
pub fn residuals_file(repacked_exists: bool) -> (r: &'static str)
    ensures
        r@ == (if repacked_exists {
            "residuals.repacked.compacted.npy"@
        } else {
            "residuals.compacted.npy"@
        }),
{
    if repacked_exists {
        "residuals.repacked.compacted.npy"
    } else {
        "residuals.compacted.npy"
    }
}

/// The sums of the sizes before each centroid, and of all of them.
pub open spec fn offsets_of(sizes: Seq<i64>) -> Seq<i64> {
    Seq::new((sizes.len() + 1) as nat, |i: int| types::range_sum(sizes, 0, i) as i64)
}

/// The running sums of the sizes are in range.
pub open spec fn sums_fit(sizes: Seq<i64>) -> bool {
    forall|i: int|
        0 <= i <= sizes.len() ==> i64::MIN <= #[trigger] types::range_sum(sizes, 0, i) <= i64::MAX
}

/// The embeddings of a centroid lie from its offset to the next one.
pub proof fn offsets_delimit(sizes: Seq<i64>, c: int)
    requires
        sums_fit(sizes),
        0 <= c < sizes.len(),
    ensures
        offsets_of(sizes).len() == sizes.len() + 1,
        offsets_of(sizes)[0] == 0,
        offsets_of(sizes)[c + 1] - offsets_of(sizes)[c] == sizes[c],
        offsets_of(sizes).last() == types::range_sum(sizes, 0, sizes.len() as int),
{
    assert(i64::MIN <= types::range_sum(sizes, 0, c) <= i64::MAX);
    assert(i64::MIN <= types::range_sum(sizes, 0, c + 1) <= i64::MAX);
    assert(i64::MIN <= types::range_sum(sizes, 0, sizes.len() as int) <= i64::MAX);
}

/// Compute offsets from sizes for efficient indexing
/// Creates offsets for indexing into compacted arrays
pub fn compute_offsets(sizes: &Vec<i64>) -> (offsets: Vec<i64>)
    requires
        sums_fit(sizes@),
    ensures
        offsets@ == offsets_of(sizes@),
{
    let mut offsets: Vec<i64> = Vec::new();
    offsets.push(0);
    let mut sum: i64 = 0;
    let mut i: usize = 0;
    while i < sizes.len()
        invariant
            i <= sizes@.len(),
            sums_fit(sizes@),
            sum == types::range_sum(sizes@, 0, i as int),
            offsets@.len() == i + 1,
            forall|j: int| 0 <= j <= i ==> #[trigger] offsets@[j] == types::range_sum(sizes@, 0, j),
        decreases sizes@.len() - i,
    {
        assert(i64::MIN <= types::range_sum(sizes@, 0, i + 1) <= i64::MAX);
        sum = sum + sizes[i];
        offsets.push(sum);
        i += 1;
    }
    assert(offsets@ =~= offsets_of(sizes@));
    offsets
}

/// Find the centroid with minimum size (dummy centroid)
/// Used to assign masked/invalid query tokens to a minimal centroid
pub fn find_kdummy_centroid(sizes: &Vec<i64>) -> (r: CentroidId)
    requires
        0 < sizes@.len() <= i64::MAX,
    ensures
        scorer::first_smallest(sizes@, r as int),
        0 <= r < sizes@.len(),
        forall|c: int| 0 <= c < sizes@.len() ==> sizes@[r as int] <= #[trigger] sizes@[c],
        forall|c: int| 0 <= c < r ==> sizes@[r as int] < #[trigger] sizes@[c],
{
    scorer::argmin(sizes) as CentroidId
}

/// The files of an index, or of a shard, `T` being tensors that are only handed on.
pub struct IndexParts<T> {
    pub centroids: T,
    pub bucket_weights: T,
    pub sizes: Vec<i64>,
    pub pids: T,
    pub residuals: T,
}

/// The lengths of the tensors in the files of an index.
pub struct PartLengths {
    pub num_centroids: i64,
    pub num_pids: i64,
    pub num_residuals: i64,
}

/// The sizes account for every centroid and every embedding.
pub open spec fn lengths_agree(sizes: Seq<i64>, lengths: PartLengths) -> bool {
    &&& sizes.len() == lengths.num_centroids
    &&& types::range_sum(sizes, 0, sizes.len() as int) == lengths.num_residuals
    &&& lengths.num_pids == lengths.num_residuals
}

/// What an index of the given parts is.
pub open spec fn assembled<T>(
    parts: IndexParts<T>,
    metadata: IndexMetadata,
    shard_config: Option<ShardConfig>,
    mapped: bool,
    r: LoadedIndex<T>,
) -> bool {
    &&& r.centroids == parts.centroids
    &&& r.bucket_weights == parts.bucket_weights
    &&& r.sizes_compacted == parts.sizes
    &&& r.pids_compacted == parts.pids
    &&& r.residuals_compacted == parts.residuals
    &&& r.offsets_compacted@ == offsets_of(parts.sizes@)
    &&& scorer::first_smallest(parts.sizes@, r.kdummy_centroid as int)
    &&& r.metadata.same_as(metadata)
    &&& r.shard_config == shard_config
    &&& r.mapped == mapped
}

/// A loaded index holds the parts that it was loaded from, each in its place. Its
/// offsets start at zero and grow by the sizes, and the dummy centroid is the first
/// of the smallest.
pub proof fn loaded_index_holds_parts<T>(
    parts: IndexParts<T>,
    metadata: IndexMetadata,
    shard_config: Option<ShardConfig>,
    mapped: bool,
    r: LoadedIndex<T>,
)
    requires
        sums_fit(parts.sizes@),
        assembled(parts, metadata, shard_config, mapped, r),
    ensures
        r.centroids == parts.centroids,
        r.bucket_weights == parts.bucket_weights,
        r.sizes_compacted@ == parts.sizes@,
        r.pids_compacted == parts.pids,
        r.residuals_compacted == parts.residuals,
        r.offsets_compacted@.len() == parts.sizes@.len() + 1,
        r.offsets_compacted@[0] == 0,
        forall|c: int|
            0 <= c < parts.sizes@.len() ==> r.offsets_compacted@[c + 1] - r.offsets_compacted@[c]
                == #[trigger] parts.sizes@[c],
        0 <= r.kdummy_centroid < parts.sizes@.len(),
        forall|c: int|
            0 <= c < parts.sizes@.len() ==> parts.sizes@[r.kdummy_centroid as int]
                <= #[trigger] parts.sizes@[c],
        forall|c: int|
            0 <= c < r.kdummy_centroid ==> parts.sizes@[r.kdummy_centroid as int]
                < #[trigger] parts.sizes@[c],
        r.metadata.num_embeddings == metadata.num_embeddings,
        r.metadata.num_passages == metadata.num_passages,
        r.metadata.num_centroids == metadata.num_centroids,
        r.metadata.num_chunks == metadata.num_chunks,
        r.metadata.next_passage_id == metadata.next_passage_id,
        r.metadata.nbits == metadata.nbits,
        r.metadata.dim == metadata.dim,
        r.metadata.num_shards == metadata.num_shards,
        r.shard_config == shard_config,
        r.mapped == mapped,
{
    assert forall|c: int| 0 <= c < parts.sizes@.len() implies r.offsets_compacted@[c + 1]
        - r.offsets_compacted@[c] == #[trigger] parts.sizes@[c] by {
        offsets_delimit(parts.sizes@, c);
    }
}

fn assemble<T>(
    parts: IndexParts<T>,
    kdummy_centroid: CentroidId,
    metadata: IndexMetadata,
    shard_config: Option<ShardConfig>,
    mapped: bool,
) -> (r: LoadedIndex<T>)
    requires
        sums_fit(parts.sizes@),
        scorer::first_smallest(parts.sizes@, kdummy_centroid as int),
    ensures
        assembled(parts, metadata, shard_config, mapped, r),
{
    let offsets_compacted = compute_offsets(&parts.sizes);
    LoadedIndex {
        centroids: parts.centroids,
        bucket_weights: parts.bucket_weights,
        sizes_compacted: parts.sizes,
        pids_compacted: parts.pids,
        residuals_compacted: parts.residuals,
        offsets_compacted,
        kdummy_centroid,
        metadata,
        shard_config,
        mapped,
    }
}

/// Index loader responsible for loading WARP index components
#[derive(Debug)]
pub struct IndexLoader {
    pub index_path: String,
    pub device: Device,
    pub dtype: Kind,
    pub use_mmap: bool,
}

/// What is found for a shard.
pub enum ShardFiles<T> {
    /// No directory
    Missing,
    Found(IndexParts<T>),
}

/// The shards that the metadata describes, or the first thing that is wrong.
pub open spec fn plans_shards(
    metadata: IndexMetadata,
    devices: int,
    r: Result<Vec<ShardConfig>, LoadError>,
) -> bool {
    match (metadata.num_shards, metadata.shard_boundaries) {
        (None, _) => r matches Err(LoadError::NotSharded),
        (Some(n), None) => r matches Err(LoadError::MissingBoundaries),
        (Some(n), Some(boundaries)) => if boundaries@.len() != n + 1 {
            r matches Err(LoadError::BoundariesLength { length, num_shards }) && length
                == boundaries@.len() && num_shards == n
        } else if devices != n {
            r matches Err(LoadError::DeviceCount { num_shards, devices: d }) && num_shards == n && d
                == devices
        } else {
            r matches Ok(configs) && configs@ == Seq::new(
                n as nat,
                |s: int|
                    ShardConfig {
                        shard_id: s as usize,
                        num_shards: n,
                        centroid_start: boundaries@[s],
                        centroid_end: boundaries@[s + 1],
                    },
            )
        },
    }
}

/// Shards are planned exactly where the metadata gives their number and boundaries
/// that fit it, and there is a device for each. Each shard then has its number and
/// the centroids from its boundary to the next.
pub proof fn planned_shards_are_the_metadatas(
    metadata: IndexMetadata,
    devices: int,
    r: Result<Vec<ShardConfig>, LoadError>,
)
    requires
        plans_shards(metadata, devices, r),
    ensures
        r is Ok <==> metadata.num_shards is Some && metadata.shard_boundaries is Some
            && metadata.shard_boundaries->Some_0@.len() == metadata.num_shards->Some_0 + 1
            && devices == metadata.num_shards->Some_0,
        r matches Ok(configs) ==> {
            let boundaries = metadata.shard_boundaries->Some_0@;
            &&& configs@.len() == metadata.num_shards->Some_0
            &&& forall|s: int|
                0 <= s < configs@.len() ==> (#[trigger] configs@[s]).shard_id == s
                    && configs@[s].num_shards == metadata.num_shards->Some_0
                    && configs@[s].centroid_start == boundaries[s] && configs@[s].centroid_end
                    == boundaries[s + 1]
        },
        r matches Err(e) ==> match e {
            LoadError::NotSharded => metadata.num_shards is None,
            LoadError::MissingBoundaries => metadata.num_shards is Some
                && metadata.shard_boundaries is None,
            LoadError::BoundariesLength { length, num_shards } => metadata.num_shards == Some(
                num_shards,
            ) && metadata.shard_boundaries is Some && length
                == metadata.shard_boundaries->Some_0@.len() && length != num_shards + 1,
            LoadError::DeviceCount { num_shards, devices: d } => metadata.num_shards == Some(
                num_shards,
            ) && d == devices && d != num_shards,
            _ => false,
        },
{
}

/// The first of the shards from `s` to `num_shards` that is missing; `None` where
/// all are there.
pub open spec fn first_missing<T>(files: Seq<ShardFiles<T>>, num_shards: int, s: int) -> Option<int>
    decreases num_shards - s,
{
    if s >= num_shards {
        None
    } else if s >= files.len() || files[s] is Missing {
        Some(s)
    } else {
        first_missing(files, num_shards, s + 1)
    }
}

/// A shard is reported missing exactly where it is the first that is not there.
pub proof fn first_missing_is_first<T>(files: Seq<ShardFiles<T>>, num_shards: int, s: int)
    requires
        0 <= s,
    ensures
        match first_missing(files, num_shards, s) {
            Some(m) => {
                &&& s <= m < num_shards
                &&& m >= files.len() || files[m] is Missing
                &&& forall|t: int| s <= t < m ==> t < files.len() && #[trigger] files[t] is Found
            },
            None => forall|t: int|
                s <= t < num_shards ==> t < files.len() && #[trigger] files[t] is Found,
        },
    decreases num_shards - s,
{
    if s < num_shards && s < files.len() && !(files[s] is Missing) {
        first_missing_is_first(files, num_shards, s + 1);
    }
}

/// The shard is there, with sizes that can be summed up and a smallest one.
pub open spec fn loadable<T>(files: ShardFiles<T>) -> bool {
    files matches ShardFiles::Found(parts) && 0 < parts.sizes@.len() <= i64::MAX && sums_fit(
        parts.sizes@,
    )
}

/// A sharded index of the given files, `mapped` saying which shards are
/// memory-mapped.
pub open spec fn assembled_shards<T>(
    files: Seq<ShardFiles<T>>,
    configs: Seq<ShardConfig>,
    metadata: IndexMetadata,
    mapped: Seq<bool>,
    r: ShardedIndex<T>,
) -> bool {
    &&& r.shard_configs@ == configs
    &&& r.metadata.same_as(metadata)
    &&& r.shards@.len() == configs.len()
    &&& forall|s: int|
        0 <= s < configs.len() ==> assembled(
            files[s]->Found_0,
            metadata,
            Some(configs[s]),
            mapped[s],
            #[trigger] r.shards@[s],
        )
}

/// Each shard of a loaded index holds the parts that were found for it, the centroids
/// that were planned for it, and is mapped where it should be.
pub proof fn loaded_shards_hold_parts<T>(
    files: Seq<ShardFiles<T>>,
    configs: Seq<ShardConfig>,
    metadata: IndexMetadata,
    mapped: Seq<bool>,
    r: ShardedIndex<T>,
    s: int,
)
    requires
        assembled_shards(files, configs, metadata, mapped, r),
        0 <= s < configs.len(),
        loadable(files[s]),
    ensures
        r.shards@.len() == configs.len(),
        r.shard_configs@ == configs,
        r.metadata.num_centroids == metadata.num_centroids,
        r.metadata.num_passages == metadata.num_passages,
        r.metadata.num_embeddings == metadata.num_embeddings,
        r.metadata.num_shards == metadata.num_shards,
        r.shards@[s].shard_config == Some(configs[s]),
        r.shards@[s].mapped == mapped[s],
        r.shards@[s].centroids == files[s]->Found_0.centroids,
        r.shards@[s].bucket_weights == files[s]->Found_0.bucket_weights,
        r.shards@[s].sizes_compacted@ == files[s]->Found_0.sizes@,
        r.shards@[s].pids_compacted == files[s]->Found_0.pids,
        r.shards@[s].residuals_compacted == files[s]->Found_0.residuals,
        r.shards@[s].offsets_compacted@[0] == 0,
        forall|c: int|
            0 <= c < files[s]->Found_0.sizes@.len() ==> r.shards@[s].offsets_compacted@[c + 1]
                - r.shards@[s].offsets_compacted@[c] == #[trigger] files[s]->Found_0.sizes@[c],
{
    loaded_index_holds_parts(
        files[s]->Found_0,
        metadata,
        Some(configs[s]),
        mapped[s],
        r.shards@[s],
    );
}

/// The sizes of an index agree with its tensors exactly where there is one for each
/// centroid, and they add up to the number of passage IDs and of residuals.
pub proof fn agreeing_lengths_add_up(sizes: Seq<i64>, lengths: PartLengths)
    ensures
        lengths_agree(sizes, lengths) <==> {
            let total = sizes.fold_left(0int, |sum: int, size: i64| sum + size);
            &&& lengths.num_centroids == sizes.len()
            &&& lengths.num_pids == total
            &&& lengths.num_residuals == total
        },
{
    types::range_sum_adds_up(sizes, 0, sizes.len() as int);
    assert(sizes.subrange(0, sizes.len() as int) =~= sizes);
}

impl IndexLoader {
    /// Create a new index loader for a path, given what is known of it
    pub fn new(
        index_path: String,
        exists: bool,
        is_dir: bool,
        device: Device,
        dtype: Kind,
        use_mmap: bool,
    ) -> (r: Result<Self, LoadError>)
        ensures
            !exists ==> (r matches Err(LoadError::NotFound(p)) && p == index_path),
            exists && !is_dir ==> (r matches Err(LoadError::NotADirectory(p)) && p == index_path),
            exists && is_dir ==> (r matches Ok(l) && l == (IndexLoader {
                index_path,
                device,
                dtype,
                use_mmap,
            })),
    {
        if !exists {
            return Err(LoadError::NotFound(index_path));
        }
        if !is_dir {
            return Err(LoadError::NotADirectory(index_path));
        }
        Ok(IndexLoader { index_path, device, dtype, use_mmap })
    }

    /// The complete index, of the files read from disk
    ///
    /// The lengths of the tensors have to agree with the sizes.
    pub fn load<T>(&self, parts: IndexParts<T>, lengths: PartLengths, metadata: IndexMetadata) -> (r:
        Result<LoadedIndex<T>, LoadError>)
        requires
            (self.use_mmap ==> self.device == Device::Cpu) ==> {
                &&& 0 < parts.sizes@.len() <= i64::MAX
                &&& sums_fit(parts.sizes@)
                &&& lengths_agree(parts.sizes@, lengths)
            },
        ensures
            match r {
                Ok(index) => (self.use_mmap ==> self.device == Device::Cpu) && assembled(
                    parts,
                    metadata,
                    None,
                    self.use_mmap,
                    index,
                ),
                Err(e) => e is MmapNeedsCpu && self.use_mmap && self.device != Device::Cpu,
            },
    {
        if !mmap_supported(self.use_mmap, self.device) {
            return Err(LoadError::MmapNeedsCpu);
        }
        let kdummy_centroid: CentroidId = find_kdummy_centroid(&parts.sizes);
        Ok(assemble(parts, kdummy_centroid, metadata, None, self.use_mmap))
    }

    /// The shards that the metadata describes, one for each device
    pub fn plan_shards(metadata: &IndexMetadata, devices: &Vec<Device>) -> (r: Result<
        Vec<ShardConfig>,
        LoadError,
    >)
        ensures
            plans_shards(*metadata, devices@.len() as int, r),
    {
        let num_shards: usize = match metadata.num_shards {
            Some(n) => n,
            None => {
                return Err(LoadError::NotSharded);
            },
        };
        let boundaries = match &metadata.shard_boundaries {
            Some(b) => b,
            None => {
                return Err(LoadError::MissingBoundaries);
            },
        };
        if boundaries.len() == 0 || boundaries.len() - 1 != num_shards {
            return Err(
                LoadError::BoundariesLength { length: boundaries.len(), num_shards },
            );
        }
        if devices.len() != num_shards {
            return Err(LoadError::DeviceCount { num_shards, devices: devices.len() });
        }
        let mut configs: Vec<ShardConfig> = Vec::new();
        let mut s: usize = 0;
        while s < num_shards
            invariant
                s <= num_shards,
                boundaries@.len() == num_shards + 1,
                boundaries@.len() <= usize::MAX,
                configs@.len() == s,
                forall|t: int|
                    0 <= t < s ==> #[trigger] configs@[t] == (ShardConfig {
                        shard_id: t as usize,
                        num_shards,
                        centroid_start: boundaries@[t],
                        centroid_end: boundaries@[t + 1],
                    }),
            decreases num_shards - s,
        {
            configs.push(
                ShardConfig {
                    shard_id: s,
                    num_shards,
                    centroid_start: boundaries[s],
                    centroid_end: boundaries[s + 1],
                },
            );
            s += 1;
        }
        assert(configs@ =~= Seq::new(
            num_shards as nat,
            |s: int|
                ShardConfig {
                    shard_id: s as usize,
                    num_shards,
                    centroid_start: boundaries@[s],
                    centroid_end: boundaries@[s + 1],
                },
        ));
        Ok(configs)
    }

    /// A sharded index across multiple devices, of the files found for each shard.
    ///
    /// Memory mapping is applied to the shards on the CPU only. `files` may end at
    /// the first shard that is missing.
    pub fn load_sharded<T>(
        metadata: IndexMetadata,
        devices: &Vec<Device>,
        use_mmap: bool,
        files: Vec<ShardFiles<T>>,
    ) -> (r: Result<ShardedIndex<T>, LoadError>)
        requires
            forall|s: int|
                0 <= s < files@.len() ==> (#[trigger] files@[s] is Missing || loadable(files@[s])),
        ensures
            match r {
                Ok(index) => {
                    &&& first_missing(files@, devices@.len() as int, 0) is None
                    &&& exists|configs: Vec<ShardConfig>| #[trigger]
                        plans_shards(metadata, devices@.len() as int, Ok(configs))
                            && assembled_shards(
                            files@,
                            configs@,
                            metadata,
                            mapped(use_mmap, devices@),
                            index,
                        )
                },
                Err(LoadError::MissingShard(s)) => {
                    &&& exists|configs: Vec<ShardConfig>| #[trigger]
                        plans_shards(metadata, devices@.len() as int, Ok(configs))
                    &&& first_missing(files@, devices@.len() as int, 0) == Some(s as int)
                },
                Err(e) => plans_shards(metadata, devices@.len() as int, Err(e)),
            },
    {
        let configs = match IndexLoader::plan_shards(&metadata, devices) {
            Ok(c) => c,
            Err(e) => {
                return Err(e);
            },
        };
        let ghost planned = configs;
        assert(plans_shards(metadata, devices@.len() as int, Ok(planned)));
        let mut s: usize = 0;
        while s < devices.len()
            invariant
                s <= devices@.len(),
                s <= files@.len(),
                plans_shards(metadata, devices@.len() as int, Ok(planned)),
                first_missing(files@, devices@.len() as int, 0) == first_missing(
                    files@,
                    devices@.len() as int,
                    s as int,
                ),
                forall|t: int| 0 <= t < s ==> #[trigger] files@[t] is Found,
            decreases devices@.len() - s,
        {
            if s >= files.len() {
                return Err(LoadError::MissingShard(s));
            }
            if let ShardFiles::Missing = &files[s] {
                return Err(LoadError::MissingShard(s));
            }
            s += 1;
        }
        let on_map = mapped_shards(use_mmap, devices);
        let ghost all = files@;
        let ghost n = devices@.len() as int;
        let mut files = files;
        let mut rest: Vec<LoadedIndex<T>> = Vec::new();
        // The shards are taken from the end, and put in order afterwards.
        while files.len() > devices.len()
            invariant
                n == devices@.len(),
                n <= files@.len(),
                files@ == all.take(files@.len() as int),
                files@.len() <= all.len(),
            decreases files@.len(),
        {
            files.pop();
            assert(files@ =~= all.take(files@.len() as int));
        }
        let mut i: usize = devices.len();
        while 0 < i
            invariant
                i <= n,
                n == configs@.len(),
                n == on_map@.len(),
                n <= all.len(),
                files@ == all.take(i as int),
                forall|t: int| 0 <= t < n ==> #[trigger] all[t] is Found,
                forall|t: int|
                    0 <= t < all.len() ==> (#[trigger] all[t] is Missing || loadable(all[t])),
                rest@.len() == n - i,
                forall|t: int|
                    i <= t < n ==> assembled(
                        all[t]->Found_0,
                        metadata,
                        Some(configs@[t]),
                        on_map@[t],
                        #[trigger] rest@[n - 1 - t],
                    ),
            decreases i,
        {
            i -= 1;
            assert(all[i as int] is Found);
            let ghost last = all[i as int];
            if let Some(ShardFiles::Found(parts)) = files.pop() {
                assert(parts == last->Found_0);
                assert(files@ =~= all.take(i as int));
                assert(loadable(all[i as int]));
                let kdummy: CentroidId = scorer::argmin(&parts.sizes) as CentroidId;
                let shard = assemble(
                    parts,
                    kdummy,
                    metadata.duplicate(),
                    Some(configs[i]),
                    on_map[i],
                );
                let ghost before = rest@;
                rest.push(shard);
                assert forall|t: int| i <= t < n implies assembled(
                    all[t]->Found_0,
                    metadata,
                    Some(configs@[t]),
                    on_map@[t],
                    #[trigger] rest@[n - 1 - t],
                ) by {
                    if t > i {
                        assert(rest@[n - 1 - t] == before[n - 1 - t]);
                    }
                }
            }
        }
        let mut shards: Vec<LoadedIndex<T>> = Vec::new();
        let ghost loaded = rest@;
        while 0 < rest.len()
            invariant
                rest@.len() + shards@.len() == n,
                loaded.len() == n,
                rest@ == loaded.take(rest@.len() as int),
                forall|t: int| 0 <= t < shards@.len() ==> #[trigger] shards@[t] == loaded[n - 1 - t],
            decreases rest@.len(),
        {
            if let Some(shard) = rest.pop() {
                shards.push(shard);
            }
            assert(rest@ =~= loaded.take(rest@.len() as int));
        }
        let index = ShardedIndex { shards, shard_configs: configs, metadata };
        assert(assembled_shards(all, planned@, metadata, on_map@, index)) by {
            assert forall|t: int| 0 <= t < planned@.len() implies assembled(
                all[t]->Found_0,
                metadata,
                Some(planned@[t]),
                on_map@[t],
                #[trigger] index.shards@[t],
            ) by {
                assert(index.shards@[t] == loaded[n - 1 - t]);
            }
        }
        Ok(index)
    }
}

} // verus!
