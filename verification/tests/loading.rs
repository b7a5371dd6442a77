use xtr_warp::search::loader::{
    compute_offsets, find_kdummy_centroid, mapped_shards, mmap_supported, residuals_file,
    IndexLoader, IndexParts, LoadError, PartLengths, ShardFiles,
};
use xtr_warp::search::npy::{
    compute_c_strides, extract_npy_field, npy_header_fits, parse_npy_header, NpyError,
};
use xtr_warp::utils::types::{
    nbits_from, parse_device, parse_dtype, AvgDoclen, Device, DeviceError, IndexConfig,
    IndexMetadata, Kind, SearchConfig, ShardConfig, TPrimePolicy,
};

fn metadata() -> IndexMetadata {
    IndexMetadata {
        num_chunks: 1,
        nbits: 4,
        num_partitions: 4,
        num_embeddings: 6,
        avg_doclen: AvgDoclen::Stored(0),
        num_passages: 2,
        next_passage_id: 2,
        num_centroids: 3,
        dim: 128,
        created_at: "2024-01-01".to_string(),
        num_shards: Some(2),
        shard_boundaries: Some(vec![0, 1, 3]),
    }
}

fn parts(sizes: Vec<i64>) -> IndexParts<&'static str> {
    IndexParts { centroids: "c", bucket_weights: "w", sizes, pids: "p", residuals: "r" }
}

fn npy(version: u8, header: &[u8]) -> Vec<u8> {
    let mut data = vec![0x93, b'N', b'U', b'M', b'P', b'Y', version, 0];
    let len = header.len() as u32;
    if version == 1 {
        data.extend_from_slice(&(len as u16).to_le_bytes());
    } else {
        data.extend_from_slice(&len.to_le_bytes());
    }
    data.extend_from_slice(header);
    data
}

const HEADER: &[u8] = b"{'descr': '<f4', 'fortran_order': False, 'shape': (100, 128), }   \n";

#[test]
fn a_header_gives_offset_shape_and_kind() {
    let data = npy(1, HEADER);
    assert!(npy_header_fits(&data));
    let (offset, shape, kind) = parse_npy_header(&data).ok().unwrap();
    assert_eq!(offset, 10 + HEADER.len() as u64);
    assert_eq!(shape, vec![100, 128]);
    assert_eq!(kind, Kind::Float);
    let (offset, _, _) = parse_npy_header(&npy(2, HEADER)).ok().unwrap();
    assert_eq!(offset, 12 + HEADER.len() as u64);
}

#[test]
fn every_supported_descriptor_has_its_kind() {
    for (descr, kind) in [
        ("<i4", Kind::Int),
        ("=i4", Kind::Int),
        ("<i8", Kind::Int64),
        ("=i8", Kind::Int64),
        ("|u1", Kind::Uint8),
        ("<u1", Kind::Uint8),
        (">u1", Kind::Uint8),
        ("<f4", Kind::Float),
        ("=f4", Kind::Float),
        ("<f2", Kind::Half),
        ("=f2", Kind::Half),
        ("<f8", Kind::Double),
        ("=f8", Kind::Double),
    ] {
        let header = format!("{{'descr': '{}', 'shape': (7,)}}", descr);
        let (_, shape, k) = parse_npy_header(&npy(1, header.as_bytes())).ok().unwrap();
        assert_eq!(k, kind);
        assert_eq!(shape, vec![7]);
    }
}

#[test]
fn each_fault_of_a_header_is_named() {
    let error = |header: &[u8]| parse_npy_header(&npy(1, header)).err().unwrap();
    assert!(matches!(parse_npy_header(&vec![1, 2, 3]).err(), Some(NpyError::NotNpy)));
    assert!(matches!(
        parse_npy_header(&vec![0; 20]).err(),
        Some(NpyError::NotNpy)
    ));
    let mut short = npy(2, b"");
    short.truncate(10);
    assert!(npy_header_fits(&short));
    assert!(matches!(parse_npy_header(&short).err(), Some(NpyError::TooShort)));
    assert!(matches!(
        parse_npy_header(&npy(3, HEADER)).err(),
        Some(NpyError::UnsupportedVersion(3))
    ));
    assert!(matches!(error(&[0xff, 0xfe]), NpyError::NotUtf8));
    assert!(matches!(error(b"{'shape': (1,)}"), NpyError::MissingDescr));
    assert!(matches!(
        error(b"{'descr': '>f4', 'shape': (1,)}"),
        NpyError::UnsupportedDtype(d) if d == ">f4"
    ));
    assert!(matches!(
        error(b"{'descr': '<f4', 'fortran_order': True, 'shape': (1,)}"),
        NpyError::FortranOrder
    ));
    assert!(matches!(error(b"{'descr': '<f4'}"), NpyError::MissingShape));
    assert!(matches!(error(b"{'descr': '<f4', 'shape': ()}"), NpyError::EmptyShape));
}

#[test]
fn a_header_that_is_cut_off_does_not_fit() {
    let mut data = npy(1, HEADER);
    data.pop();
    assert!(!npy_header_fits(&data));
}

#[test]
fn fields_are_read_by_key() {
    let header = std::str::from_utf8(HEADER).unwrap();
    assert_eq!(extract_npy_field(header, "descr"), Some("<f4".to_string()));
    assert_eq!(extract_npy_field(header, "fortran_order"), Some("False".to_string()));
    assert_eq!(extract_npy_field(header, "shape"), Some("(100, 128)".to_string()));
    assert_eq!(extract_npy_field(header, "size"), None);
    assert_eq!(extract_npy_field("'a': 'open", "a"), None);
    assert_eq!(extract_npy_field("'a': (1, 2", "a"), None);
    assert_eq!(extract_npy_field("'a':\u{2003} true \t}", "a"), Some("true".to_string()));
    assert_eq!(extract_npy_field("'a':", "a"), Some("".to_string()));
}

#[test]
fn dimensions_that_are_no_numbers_are_left_out() {
    let header = "{'descr': '<i8', 'shape': (3, x, +4, , 99999999999999999999, -5)}";
    let (_, shape, _) = parse_npy_header(&npy(1, header.as_bytes())).ok().unwrap();
    assert_eq!(shape, vec![3, 4, -5]);
}

#[test]
fn strides_are_products_of_later_dimensions() {
    assert_eq!(compute_c_strides(&vec![2, 3, 4]), vec![12, 4, 1]);
    assert_eq!(compute_c_strides(&vec![7]), vec![1]);
    assert_eq!(compute_c_strides(&vec![]), Vec::<i64>::new());
}

#[test]
fn offsets_are_running_sums() {
    assert_eq!(compute_offsets(&vec![3, 0, 2]), vec![0, 3, 3, 5]);
    assert_eq!(compute_offsets(&vec![]), vec![0]);
}

#[test]
fn the_dummy_centroid_is_the_smallest() {
    assert_eq!(find_kdummy_centroid(&vec![3, 0, 2, 0]), 1);
}

#[test]
fn residuals_come_repacked_where_they_can() {
    assert_eq!(residuals_file(true), "residuals.repacked.compacted.npy");
    assert_eq!(residuals_file(false), "residuals.compacted.npy");
}

#[test]
fn a_loader_needs_a_directory() {
    let new = |exists, is_dir| {
        IndexLoader::new("idx".to_string(), exists, is_dir, Device::Cpu, Kind::Half, true)
    };
    assert!(matches!(new(false, false).err(), Some(LoadError::NotFound(p)) if p == "idx"));
    assert!(matches!(new(true, false).err(), Some(LoadError::NotADirectory(p)) if p == "idx"));
    let loader = new(true, true).ok().unwrap();
    assert_eq!(loader.dtype, Kind::Half);
    assert!(loader.use_mmap);
}

#[test]
fn an_index_is_loaded_from_its_parts() {
    let loader =
        IndexLoader::new("idx".to_string(), true, true, Device::Cuda(0), Kind::Half, false)
            .ok()
            .unwrap();
    let lengths = PartLengths { num_centroids: 3, num_pids: 6, num_residuals: 6 };
    let index = loader.load(parts(vec![3, 1, 2]), lengths, metadata()).ok().unwrap();
    assert_eq!(index.offsets_compacted, vec![0, 3, 4, 6]);
    assert_eq!(index.kdummy_centroid, 1);
    assert_eq!(index.sizes_compacted, vec![3, 1, 2]);
    assert_eq!(index.centroids, "c");
    assert_eq!(index.bucket_weights, "w");
    assert_eq!(index.pids_compacted, "p");
    assert_eq!(index.residuals_compacted, "r");
    assert_eq!(index.metadata.num_embeddings, 6);
    assert!(index.shard_config.is_none());
    assert!(!index.mapped);
}

#[test]
fn mapping_is_for_the_cpu() {
    assert!(mmap_supported(true, Device::Cpu));
    assert!(mmap_supported(false, Device::Mps));
    assert!(!mmap_supported(true, Device::Mps));
    let loader = IndexLoader::new("idx".to_string(), true, true, Device::Mps, Kind::Half, true)
        .ok()
        .unwrap();
    let lengths = PartLengths { num_centroids: 1, num_pids: 1, num_residuals: 1 };
    let error = loader.load(parts(vec![1]), lengths, metadata()).err();
    assert!(matches!(error, Some(LoadError::MmapNeedsCpu)));
}

#[test]
fn shards_are_planned_from_the_metadata() {
    let two = vec![Device::Cuda(0), Device::Cuda(1)];
    let configs = IndexLoader::plan_shards(&metadata(), &two).ok().unwrap();
    assert_eq!(
        configs,
        vec![
            ShardConfig { shard_id: 0, num_shards: 2, centroid_start: 0, centroid_end: 1 },
            ShardConfig { shard_id: 1, num_shards: 2, centroid_start: 1, centroid_end: 3 },
        ]
    );
    let mut m = metadata();
    m.num_shards = None;
    assert!(matches!(
        IndexLoader::plan_shards(&m, &two).err(),
        Some(LoadError::NotSharded)
    ));
    let mut m = metadata();
    m.shard_boundaries = None;
    assert!(matches!(
        IndexLoader::plan_shards(&m, &two).err(),
        Some(LoadError::MissingBoundaries)
    ));
    let mut m = metadata();
    m.shard_boundaries = Some(vec![0, 3]);
    assert!(matches!(
        IndexLoader::plan_shards(&m, &two).err(),
        Some(LoadError::BoundariesLength { length: 2, num_shards: 2 })
    ));
    assert!(matches!(
        IndexLoader::plan_shards(&metadata(), &vec![Device::Cpu]).err(),
        Some(LoadError::DeviceCount { num_shards: 2, devices: 1 })
    ));
}

#[test]
fn a_sharded_index_is_loaded_from_its_shards() {
    let devices = vec![Device::Cpu, Device::Cuda(1)];
    let files = vec![
        ShardFiles::Found(parts(vec![3])),
        ShardFiles::Found(parts(vec![2, 1])),
    ];
    let index = IndexLoader::load_sharded(metadata(), &devices, false, files).ok().unwrap();
    assert_eq!(index.shards.len(), 2);
    assert_eq!(index.shards[0].offsets_compacted, vec![0, 3]);
    assert_eq!(index.shards[1].offsets_compacted, vec![0, 2, 3]);
    assert_eq!(index.shards[1].kdummy_centroid, 1);
    assert_eq!(index.shards[1].shard_config, Some(index.shard_configs[1]));
    assert_eq!(index.shards[1].metadata.created_at, "2024-01-01");
    assert_eq!(index.metadata.shard_boundaries, Some(vec![0, 1, 3]));
}

#[test]
fn a_missing_shard_is_named() {
    let devices = vec![Device::Cpu, Device::Cuda(1)];
    let missing = vec![ShardFiles::Found(parts(vec![3])), ShardFiles::Missing];
    assert!(matches!(
        IndexLoader::load_sharded(metadata(), &devices, false, missing).err(),
        Some(LoadError::MissingShard(1))
    ));
    let short = vec![ShardFiles::Found(parts(vec![3]))];
    assert!(matches!(
        IndexLoader::load_sharded(metadata(), &devices, true, short).err(),
        Some(LoadError::MissingShard(1))
    ));
}

#[test]
fn only_shards_on_the_cpu_are_mapped() {
    let devices = vec![Device::Cuda(0), Device::Cpu];
    assert_eq!(mapped_shards(true, &devices), vec![false, true]);
    assert_eq!(mapped_shards(false, &devices), vec![false, false]);
    let files = || {
        vec![ShardFiles::Found(parts(vec![3])), ShardFiles::Found(parts(vec![2, 1]))]
    };
    let index = IndexLoader::load_sharded(metadata(), &devices, true, files()).ok().unwrap();
    assert!(!index.shards[0].mapped);
    assert!(index.shards[1].mapped);
    let index = IndexLoader::load_sharded(metadata(), &devices, false, files()).ok().unwrap();
    assert!(!index.shards[0].mapped && !index.shards[1].mapped);
}

#[test]
fn device_strings_are_parsed() {
    assert_eq!(parse_device("cpu").ok(), Some(Device::Cpu));
    assert_eq!(parse_device("CPU").ok(), Some(Device::Cpu));
    assert_eq!(parse_device("mps").ok(), Some(Device::Mps));
    assert_eq!(parse_device("cuda").ok(), Some(Device::Cuda(0)));
    assert_eq!(parse_device("cuda:0").ok(), Some(Device::Cuda(0)));
    assert_eq!(parse_device("Cuda:13").ok(), Some(Device::Cuda(13)));
    assert_eq!(parse_device("cuda:+2").ok(), Some(Device::Cuda(2)));
}

#[test]
fn bad_device_strings_are_named() {
    for index in ["", "-1", "one", " 1", "99999999999999999999999"] {
        let e = parse_device(&format!("cuda:{}", index)).err().unwrap();
        assert!(matches!(&e, DeviceError::InvalidIndex(s) if s == index));
        assert_eq!(e.message(), format!("Invalid CUDA device index: '{}'", index));
    }
    let e = parse_device("cuda:1:2").err().unwrap();
    assert!(matches!(e, DeviceError::InvalidFormat));
    assert_eq!(e.message(), "Invalid CUDA device format. Expected 'cuda:N'.");
    let e = parse_device("TPU").err().unwrap();
    assert!(matches!(&e, DeviceError::Unsupported(s) if s == "TPU"));
    assert_eq!(e.message(), "Unsupported device string: 'TPU'");
    assert!(parse_device("cud").is_err());
}

#[test]
fn lower_case_goes_beyond_ascii() {
    // The Kelvin sign is a `k` in lower case, the dotted capital I two characters.
    assert!(parse_device("\u{212a}").is_err());
    let e = parse_device("cuda:\u{212a}\u{130}").err().unwrap();
    assert!(matches!(&e, DeviceError::InvalidIndex(s) if s == "ki\u{307}"));
}

#[test]
fn dtype_strings_are_parsed() {
    assert_eq!(parse_dtype("float32").ok(), Some(Kind::Float));
    assert_eq!(parse_dtype("FLOAT16").ok(), Some(Kind::Half));
    assert_eq!(parse_dtype("float64").ok(), Some(Kind::Double));
    assert_eq!(parse_dtype("BFloat16").ok(), Some(Kind::BFloat16));
    let e = parse_dtype("Int8").err().unwrap();
    assert_eq!(e.given, "Int8");
    assert_eq!(
        e.message(),
        "Unsupported dtype string: 'Int8', should be 'float32', 'float16', 'float64', or 'bfloat16'"
    );
}

#[test]
fn configurations_have_defaults() {
    let c = IndexConfig::default();
    assert_eq!(c.index_path, "./index");
    assert_eq!(c.device, Device::Cpu);
    assert_eq!(c.nbits, 4);
    assert_eq!(c.embedding_dim, 128);
    let c: SearchConfig<i64> = SearchConfig::default();
    assert_eq!(c.k, 100);
    assert_eq!(c.device, "cpu");
    assert_eq!(c.dtype, "float32");
    assert_eq!(c.nprobe, 4);
    assert_eq!(c.bound, 128);
    assert_eq!(c.batch_size, 8192);
    assert_eq!(c.num_threads, Some(1));
    assert_eq!(c.max_candidates, None);
    let c: SearchConfig<i64> = SearchConfig::new(
        5,
        "mps".to_string(),
        None,
        None,
        Some(9),
        Some(1),
        None,
        None,
        Some(3),
        Some(4),
        Some(6),
    );
    assert_eq!((c.k, c.bound, c.t_prime), (5, 1, Some(9)));
    assert_eq!(c.num_threads, None);
    assert_eq!(c.centroid_score_threshold, Some(3));
    assert_eq!(c.max_codes_per_centroid, Some(4));
    assert_eq!(c.max_candidates, Some(6));
}

#[test]
fn thresholds_follow_k() {
    assert_eq!(TPrimePolicy::Fixed(7).value(1000), 7);
    assert_eq!(TPrimePolicy::Max.value(100), 50_000);
    assert_eq!(TPrimePolicy::Max.value(101), 100_000);
}

#[test]
fn bits_fit_a_byte() {
    assert_eq!(nbits_from(0), Some(0));
    assert_eq!(nbits_from(255), Some(255));
    assert_eq!(nbits_from(256), None);
    assert_eq!(nbits_from(-1), None);
}
