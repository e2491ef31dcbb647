//! Configurations: options, defaults, inference and objectives.
use vector_index::autotune::{
    default_training_vector_count, diskann_build_preset, infer_diskann_l_search, infer_ivf_nlist,
    infer_ivf_nprobe_with_filter_expansion_cap, infer_rq_bits, is_supported_rq_bits,
    DeploymentProfile, DiskAnnBuildPreset, DEFAULT_RQ_BITS,
};
use vector_index::build_plan::VectorIndexBuildPlan;
use vector_index::config::{validate_config, IndexType, VectorIndexConfig};
use vector_index::diskann::{
    diskann_training_sample_limit, DiskAnnBuildDistance, DiskAnnBuildParams,
    DiskAnnRawVectorEncoding, DiskAnnStorageLayout, DISKANN_MAX_PQ_TRAINING_VECTORS,
};
use vector_index::error::{Error, ErrorKind};
use vector_index::metric::MetricType;
use vector_index::options::{ConfigOptions, OptionEntry};
use vector_index::pq::{
    infer_pq_m, infer_pq_m_for, infer_uniform_pq_m, CodeRatio, DEFAULT_PQ_CODE_RATIO,
};
use vector_index::size::{
    estimate_diskann_row_bytes, persisted_code_budget, validate_persisted_size_objective,
    PERSISTED_ROW_ID_ESTIMATE_BYTES,
};

fn options(values: &[(&str, &str)]) -> Vec<OptionEntry> {
    values
        .iter()
        .map(|(key, value)| OptionEntry {
            key: (*key).to_string(),
            value: (*value).to_string(),
            single: value.trim().parse::<f32>().ok().map(f32::to_bits),
            double: value.trim().parse::<f64>().ok().map(f64::to_bits),
        })
        .collect()
}

fn configure(values: &[(&str, &str)]) -> Result<VectorIndexConfig, Error> {
    VectorIndexConfig::from_options(&options(values))
}

fn message(values: &[(&str, &str)]) -> String {
    let error = configure(values).expect_err("these options should be rejected");
    assert_eq!(error.kind, ErrorKind::InvalidInput);
    error.message
}

#[test]
fn pq_m_inference_preserves_relative_code_budget_across_dimensions_and_bits() {
    assert_eq!(infer_pq_m(128, 8, DEFAULT_PQ_CODE_RATIO).unwrap(), 32);
    assert_eq!(infer_pq_m(960, 8, DEFAULT_PQ_CODE_RATIO).unwrap(), 240);
    assert_eq!(infer_pq_m(128, 4, DEFAULT_PQ_CODE_RATIO).unwrap(), 64);
    assert_eq!(infer_pq_m(960, 4, DEFAULT_PQ_CODE_RATIO).unwrap(), 480);
}

#[test]
fn pq_m_inference_selects_the_nearest_balanced_subvector_shape() {
    assert_eq!(infer_pq_m(10, 8, DEFAULT_PQ_CODE_RATIO).unwrap(), 3);
    assert_eq!(infer_pq_m(384, 8, 0.125f64.to_bits()).unwrap(), 192);
    assert_eq!(infer_pq_m(7, 4, DEFAULT_PQ_CODE_RATIO).unwrap(), 4);
}

#[test]
fn pq_m_inference_rejects_invalid_code_ratios() {
    for ratio in [0.0, f64::NAN, f64::INFINITY, 0.2501] {
        let error = infer_pq_m(128, 8, ratio.to_bits()).expect_err("invalid ratio should fail");
        assert!(error.message.contains("pq.code-ratio"));
    }
    let error = infer_pq_m(128, 4, 0.1251f64.to_bits())
        .expect_err("4-bit code ratio cannot exceed its full-width encoding");
    assert!(error.message.contains("(0, 0.125]"));
}

#[test]
fn pq_m_inference_computes_in_double_precision() {
    // Each ratio is a little less than the decimal fraction, and the product is rounded up.
    assert_eq!(infer_pq_m(10, 8, 0.0375f64.to_bits()).unwrap(), 2);
    assert_eq!(infer_pq_m(1710, 8, 0.0875f64.to_bits()).unwrap(), 599);
    assert_eq!(infer_pq_m(4775, 4, 0.0075f64.to_bits()).unwrap(), 287);
    for dimension in 1..400usize {
        for step in 1..=100u32 {
            for pq_bits in [4usize, 8] {
                let ratio = f64::from(step) / 400.0 * pq_bits as f64 / 8.0;
                let target = dimension as f64 * 32.0 * ratio / pq_bits as f64;
                let wanted = target.round().clamp(1.0, dimension as f64) as usize;
                assert_eq!(infer_pq_m(dimension, pq_bits, ratio.to_bits()).unwrap(), wanted);
            }
        }
    }
}

#[test]
fn code_budgets_are_divided_in_double_precision() {
    for dimension in 1..120usize {
        let raw_bytes = 4 * dimension;
        for bytes in 1..=raw_bytes {
            for pq_bits in [4usize, 8] {
                let ratio = (bytes as f64 / raw_bytes as f64).min(pq_bits as f64 / 32.0);
                let budget = CodeRatio::Budget { bytes, raw_bytes };
                assert_eq!(
                    infer_pq_m_for(dimension, pq_bits, budget).unwrap(),
                    infer_pq_m(dimension, pq_bits, ratio.to_bits()).unwrap()
                );
            }
        }
    }
}

#[test]
fn uniform_pq_m_is_the_nearest_divisor() {
    let default = CodeRatio::Number(DEFAULT_PQ_CODE_RATIO);
    assert_eq!(infer_uniform_pq_m(128, 8, default).unwrap(), 32);
    assert_eq!(infer_uniform_pq_m(16, 8, default).unwrap(), 4);
    assert_eq!(infer_uniform_pq_m(7, 8, default).unwrap(), 1);
    let budget = CodeRatio::Budget { bytes: 70, raw_bytes: 512 };
    assert_eq!(infer_uniform_pq_m(128, 8, budget).unwrap(), 64);
}

#[test]
fn diskann_config_index_type_code_and_name() {
    let index_type = IndexType::from_code(5).expect("DiskANN index type code should exist");
    assert_eq!(index_type.as_str(), "diskann");
}

#[test]
fn ivfsq_uses_a_new_type_code_and_retired_type_codes_stay_reserved() {
    assert_eq!(IndexType::from_code(6), Some(IndexType::IvfSq));
    assert_eq!(IndexType::IvfSq.as_str(), "ivf_sq");
    assert_eq!(IndexType::from_code(2), None);
    assert_eq!(IndexType::from_code(3), None);
}

#[test]
fn index_type_codes_and_names_lead_back_to_their_types() {
    for index_type in [
        IndexType::IvfFlat,
        IndexType::IvfPq,
        IndexType::IvfRq,
        IndexType::DiskAnn,
        IndexType::IvfSq,
    ] {
        assert_eq!(IndexType::from_code(index_type.code()), Some(index_type));
        let entries = options(&[
            ("index.type", index_type.as_str()),
            ("dimension", "16"),
            ("metric", "l2"),
            ("expected-vector-count", "1000"),
        ]);
        let config = VectorIndexConfig::from_options(&entries).unwrap();
        assert_eq!(config.index_type(), index_type);
    }
    for metric in [MetricType::L2, MetricType::InnerProduct, MetricType::Cosine] {
        assert_eq!(MetricType::from_code(metric.code()), Some(metric));
    }
    assert_eq!(MetricType::from_code(99), None);
}

#[test]
fn diskann_config_parses_without_nlist() {
    let config = configure(&[("index.type", "diskann"), ("dimension", "128"), ("metric", "l2")])
        .expect("valid DiskANN options should infer pq.m without nlist");

    assert_eq!(config.index_type(), IndexType::DiskAnn);
    assert_eq!(config.dimension(), 128);
    assert_eq!(config.nlist(), 1);
    let VectorIndexConfig::DiskAnn { pq_m, pq_bits, build, .. } = config else {
        panic!("expected DiskANN config");
    };
    assert_eq!(pq_m, 32);
    assert_eq!(pq_bits, 8);
    assert_eq!(build.memory_budget_bytes, 8 * 1024 * 1024 * 1024);
}

#[test]
fn pq_config_parses_code_ratio_and_explicit_m_takes_precedence() {
    let auto = configure(&[
        ("index.type", "ivf_pq"),
        ("dimension", "128"),
        ("nlist", "4"),
        ("metric", "l2"),
        ("pq.code-ratio", "0.125"),
    ])
    .expect("IVF-PQ should infer pq.m from a relative code budget");
    let VectorIndexConfig::IvfPq { m, .. } = auto else {
        panic!("expected IVF-PQ config");
    };
    assert_eq!(m, 64);

    let explicit = configure(&[
        ("index.type", "diskann"),
        ("dimension", "128"),
        ("metric", "l2"),
        ("pq.m", "16"),
        ("pq.code-ratio", "0.125"),
    ])
    .expect("explicit pq.m should override the code ratio");
    let VectorIndexConfig::DiskAnn { pq_m, .. } = explicit else {
        panic!("expected DiskANN config");
    };
    assert_eq!(pq_m, 16);
}

#[test]
fn ivf_config_resolves_automatic_nlist_from_expected_count() {
    let plan = VectorIndexBuildPlan::from_options(&options(&[
        ("index.type", "ivf_sq"),
        ("dimension", "100"),
        ("expected-vector-count", "1183514"),
        ("nlist", "auto"),
        ("metric", "cosine"),
    ]))
    .unwrap();
    assert_eq!(plan.expected_vector_count, Some(1_183_514));
    assert_eq!(plan.config.nlist(), 1024);
    assert_eq!(plan.config.resolved().nlist, 1024);

    let missing_count =
        message(&[("index.type", "ivf_flat"), ("dimension", "8"), ("metric", "l2")]);
    assert!(missing_count.contains("expected-vector-count"));
}

#[test]
fn capacity_goal_resolves_rq_bits_and_diskann_deployment_layout() {
    let rq = configure(&[
        ("index.type", "ivf_rq"),
        ("dimension", "100"),
        ("nlist", "16"),
        ("metric", "l2"),
        ("max-bytes-per-vector", "88"),
    ])
    .unwrap();
    assert_eq!(rq.resolved().rq_bits, Some(3));

    let diskann = configure(&[
        ("index.type", "diskann"),
        ("dimension", "128"),
        ("metric", "l2"),
        ("deployment-profile", "local_storage"),
        ("diskann.storage-layout", "auto"),
    ])
    .unwrap();
    assert_eq!(
        diskann.resolved().diskann_build.unwrap().storage_layout,
        DiskAnnStorageLayout::Interleaved
    );
}

#[test]
fn capacity_goal_rejects_indexes_that_cannot_meet_persisted_size_budget() {
    let flat = message(&[
        ("index.type", "ivf_flat"),
        ("dimension", "128"),
        ("nlist", "4"),
        ("metric", "l2"),
        ("max-bytes-per-vector", "64"),
    ]);
    assert!(flat.contains("cannot be satisfied"));

    let diskann = message(&[
        ("index.type", "diskann"),
        ("dimension", "128"),
        ("metric", "l2"),
        ("max-bytes-per-vector", "64"),
    ]);
    assert!(diskann.contains("cannot fit DiskANN"));

    let pq = configure(&[
        ("index.type", "ivf_pq"),
        ("dimension", "128"),
        ("nlist", "4"),
        ("metric", "l2"),
        ("max-bytes-per-vector", "80"),
    ])
    .unwrap();
    assert!(pq.resolved().pq_m.unwrap() + PERSISTED_ROW_ID_ESTIMATE_BYTES <= 80);
}

#[test]
fn build_time_goal_is_never_silently_guessed_from_hardware() {
    let values = options(&[
        ("index.type", "ivf_sq"),
        ("dimension", "16"),
        ("nlist", "4"),
        ("metric", "l2"),
        ("max-build-seconds", "10"),
    ]);
    let plan = VectorIndexBuildPlan::from_options(&values).unwrap();
    assert_eq!(plan.objective.max_build_seconds, Some(10.0f64.to_bits()));

    let error = VectorIndexConfig::from_options(&values).unwrap_err();
    assert!(error.message.contains("requires measured offline calibration"));
}

#[test]
fn pq_config_constructors_use_the_default_relative_budget() {
    let ivf = VectorIndexConfig::ivf_pq(128, 4, MetricType::L2, false).unwrap();
    let VectorIndexConfig::IvfPq { m, .. } = ivf else {
        panic!("expected IVF-PQ config");
    };
    assert_eq!(m, 32);

    let diskann =
        VectorIndexConfig::disk_ann(960, MetricType::L2, 8, DiskAnnBuildParams::default()).unwrap();
    let VectorIndexConfig::DiskAnn { pq_m, .. } = diskann else {
        panic!("expected DiskANN config");
    };
    assert_eq!(pq_m, 240);
}

#[test]
fn default_configs_are_valid() {
    let rq = VectorIndexConfig::ivf_rq(100, 4, MetricType::Cosine).unwrap();
    validate_config(&rq).unwrap();
    assert_eq!(rq.resolved().rq_bits, Some(DEFAULT_RQ_BITS));
    let pq = VectorIndexConfig::ivf_pq(96, 4, MetricType::L2, true).unwrap();
    validate_config(&pq).unwrap();
    assert_eq!(pq.resolved().pq_m, Some(24));
    assert_eq!(pq.resolved().metric, MetricType::L2);
    let error = VectorIndexConfig::ivf_pq(0, 4, MetricType::L2, false).unwrap_err();
    assert_eq!(error.kind, ErrorKind::InvalidInput);
}

#[test]
fn diskann_config_parses_explicit_build_parameters() {
    let config = configure(&[
        ("index.type", "diskann"),
        ("dimension", "128"),
        ("metric", "l2"),
        ("pq.m", "16"),
        ("pq.bits", "4"),
        ("diskann.max-degree", "32"),
        ("diskann.build-search-list-size", "64"),
        ("diskann.alpha", "1.4"),
        ("diskann.seed", "7"),
        ("diskann.memory-budget-bytes", "123456"),
        ("diskann.storage-layout", "interleaved"),
        ("diskann.raw-vector-encoding", "f16"),
        ("diskann.build-distance", "full_precision"),
    ])
    .expect("explicit DiskANN build parameters should parse");

    let VectorIndexConfig::DiskAnn { pq_m, pq_bits, build, .. } = config else {
        panic!("expected DiskANN config");
    };
    assert_eq!(pq_m, 16);
    assert_eq!(pq_bits, 4);
    assert_eq!(build.max_degree, 32);
    assert_eq!(build.build_search_list_size, 64);
    assert_eq!(build.alpha, 1.4f32.to_bits());
    assert_eq!(build.seed, 7);
    assert_eq!(build.memory_budget_bytes, 123456);
    assert_eq!(build.storage_layout, DiskAnnStorageLayout::Interleaved);
    assert_eq!(build.raw_vector_encoding, DiskAnnRawVectorEncoding::F16);
    assert_eq!(build.build_distance, DiskAnnBuildDistance::FullPrecision);
}

#[test]
fn diskann_build_width_default_follows_explicit_degree() {
    let diskann = configure(&[
        ("index.type", "diskann"),
        ("dimension", "128"),
        ("metric", "l2"),
        ("diskann.max-degree", "128"),
    ])
    .expect("omitted Lbuild should follow an explicit DiskANN degree");
    let VectorIndexConfig::DiskAnn { build, .. } = diskann else {
        panic!("expected DiskANN config");
    };
    assert_eq!(build.max_degree, 128);
    assert_eq!(build.build_search_list_size, 128);
}

#[test]
fn explicit_diskann_build_search_width_is_preserved() {
    let diskann = configure(&[
        ("index.type", "diskann"),
        ("dimension", "128"),
        ("metric", "l2"),
        ("diskann.max-degree", "128"),
        ("diskann.build-search-list-size", "256"),
    ])
    .expect("explicit Lbuild should take precedence over its automatic default");
    let VectorIndexConfig::DiskAnn { build, .. } = diskann else {
        panic!("expected DiskANN config");
    };
    assert_eq!(build.build_search_list_size, 256);
}

#[test]
fn diskann_config_accepts_all_supported_metrics() {
    for (name, expected) in [
        ("l2", MetricType::L2),
        ("inner_product", MetricType::InnerProduct),
        ("cosine", MetricType::Cosine),
    ] {
        let config = configure(&[
            ("index.type", "diskann"),
            ("dimension", "128"),
            ("metric", name),
            ("pq.m", "16"),
        ])
        .expect("DiskANN should accept every public metric");
        let VectorIndexConfig::DiskAnn { metric, .. } = config else {
            panic!("expected DiskANN config");
        };
        assert_eq!(metric, expected);
    }
}

#[test]
fn diskann_config_rejects_invalid_shape_and_build_parameters() {
    for (extra, expected) in [
        (vec![("dimension", "1025")], "at most 1024"),
        (vec![("pq.m", "0")], "pq.m must be greater than 0"),
        (vec![("pq.m", "129")], "must not exceed dimension"),
        (vec![("pq.bits", "6")], "pq.bits must be 4 or 8"),
        (vec![("diskann.raw-vector-encoding", "bf16")], "must be auto, f32, or f16"),
        (
            vec![("diskann.max-degree", "65"), ("diskann.build-search-list-size", "64")],
            "build search-list size",
        ),
        (vec![("diskann.alpha", "0.9")], "alpha must be at least 1"),
        (
            vec![("diskann.max-degree", "1024"), ("diskann.build-search-list-size", "1024")],
            "adjacency list",
        ),
        (
            vec![
                ("dimension", "1024"),
                ("pq.m", "16"),
                ("diskann.raw-vector-encoding", "f32"),
                ("diskann.storage-layout", "interleaved"),
            ],
            "raw vector and maximum adjacency",
        ),
    ] {
        let mut values = vec![
            ("index.type", "diskann"),
            ("dimension", "128"),
            ("metric", "l2"),
            ("pq.m", "16"),
        ];
        for replacement in extra {
            if let Some(existing) = values.iter_mut().find(|item| item.0 == replacement.0) {
                *existing = replacement;
            } else {
                values.push(replacement);
            }
        }
        let error = message(&values);
        assert!(error.contains(expected), "error '{}' should contain '{}'", error, expected);
    }
}

#[test]
fn config_from_options_parses_all_index_types() {
    assert_eq!(
        configure(&[
            ("index.type", "ivf_flat"),
            ("dimension", "8"),
            ("nlist", "4"),
            ("metric", "l2"),
        ])
        .unwrap()
        .index_type(),
        IndexType::IvfFlat
    );

    match configure(&[
        ("index.type", "ivf_pq"),
        ("dimension", "16"),
        ("nlist", "4"),
        ("metric", "l2"),
        ("use-opq", "true"),
    ])
    .unwrap()
    {
        VectorIndexConfig::IvfPq { m, use_opq, .. } => {
            assert_eq!(m, 4);
            assert!(use_opq);
        }
        _ => panic!("expected IVF PQ config"),
    }

    match configure(&[
        ("index.type", "ivf_rq"),
        ("dimension", "8"),
        ("nlist", "4"),
        ("metric", "cosine"),
    ])
    .unwrap()
    {
        VectorIndexConfig::IvfRq { dimension, nlist, bits, metric, .. } => {
            assert_eq!(dimension, 8);
            assert_eq!(nlist, 4);
            assert_eq!(bits, DEFAULT_RQ_BITS);
            assert_eq!(metric, MetricType::Cosine);
        }
        _ => panic!("expected IVF RQ config"),
    }

    match configure(&[
        ("index.type", "ivf_sq"),
        ("dimension", "8"),
        ("nlist", "4"),
        ("metric", "inner_product"),
    ])
    .unwrap()
    {
        VectorIndexConfig::IvfSq { dimension, nlist, metric, .. } => {
            assert_eq!(dimension, 8);
            assert_eq!(nlist, 4);
            assert_eq!(metric, MetricType::InnerProduct);
        }
        _ => panic!("expected IVF-SQ config"),
    }
}

#[test]
fn config_from_options_rejects_unknown_options() {
    let error = message(&[
        ("index.type", "ivf_flat"),
        ("dimension", "8"),
        ("nlist", "4"),
        ("metric", "l2"),
        ("unused", "value"),
    ]);
    assert!(error.contains("unknown vector index option"));
}

#[test]
fn unknown_options_are_named_in_order() {
    let error = message(&[
        ("zeta", "1"),
        ("index.type", "ivf_flat"),
        ("dimension", "8"),
        ("pq.m", "2"),
        ("nlist", "4"),
        ("alpha", "x"),
        ("metric", "l2"),
    ]);
    assert_eq!(error, "unknown vector index option(s): alpha, pq.m, zeta");
}

#[test]
fn config_from_options_rejects_alias_keys_and_values() {
    let error = message(&[("type", "ivf_flat"), ("dimension", "8"), ("nlist", "4")]);
    assert!(error.contains("missing required option 'index.type'"));

    let error = message(&[("index.type", "ivf-flat"), ("dimension", "8"), ("nlist", "4")]);
    assert!(error.contains("unknown index.type"));

    let error = message(&[("index.type", "IVF_FLAT"), ("dimension", "8"), ("nlist", "4")]);
    assert!(error.contains("unknown index.type"));

    let error = message(&[
        ("index.type", "ivf_flat"),
        ("dimension", "8"),
        ("nlist", "4"),
        ("metric", "ip"),
    ]);
    assert!(error.contains("unknown metric"));
}

#[test]
fn option_keys_are_trimmed_and_must_differ() {
    let mut collected = ConfigOptions::new(&options(&[(" nlist ", "4"), ("metric", "l2")])).unwrap();
    assert_eq!(collected.optional("nlist").unwrap().value, "4");
    assert!(collected.optional("pq.m").is_none());
    assert_eq!(
        collected.required("pq.m").unwrap_err().message,
        "missing required option 'pq.m'"
    );
    assert_eq!(
        collected.reject_unknown().unwrap_err().message,
        "unknown vector index option(s): metric"
    );
    assert!(collected.required("metric").is_ok());
    assert!(collected.reject_unknown().is_ok());
    assert_eq!(
        ConfigOptions::new(&options(&[("  ", "4")])).unwrap_err().message,
        "option key must not be empty"
    );
    assert_eq!(
        ConfigOptions::new(&options(&[("nlist", "4"), ("nlist ", "5")])).unwrap_err().message,
        "duplicate option key 'nlist'"
    );
}

#[test]
fn the_order_of_options_does_not_matter() {
    let values = [
        ("index.type", "diskann"),
        ("dimension", "96"),
        ("metric", "cosine"),
        ("pq.code-ratio", "0.125"),
        ("diskann.build-preset", "high_recall"),
        ("deployment-profile", "object_store"),
    ];
    let mut reversed = values;
    reversed.reverse();
    let plan = VectorIndexBuildPlan::from_options(&options(&values)).unwrap();
    assert_eq!(VectorIndexBuildPlan::from_options(&options(&reversed)).unwrap(), plan);
    assert_eq!(configure(&values).unwrap(), configure(&reversed).unwrap());
}

#[test]
fn numbers_in_options_are_checked() {
    let base = [("index.type", "ivf_flat"), ("metric", "l2"), ("nlist", "4")];
    for dimension in ["", "x", "-1", "1.5", "99999999999999999999999"] {
        let mut values = base.to_vec();
        values.push(("dimension", dimension));
        assert!(message(&values).contains("dimension"));
    }
    let mut values = base.to_vec();
    values.push(("dimension", "0"));
    assert!(message(&values).contains("must be greater than 0"));
}

#[test]
fn larger_size_budgets_accept_more() {
    let config = VectorIndexConfig::IvfFlat {
        dimension: 4,
        nlist: 2,
        metric: MetricType::L2,
        use_approximate_coarse_assignment: true,
    };
    assert!(validate_persisted_size_objective(&config, None, 25).is_err());
    assert!(validate_persisted_size_objective(&config, None, 26).is_ok());
    assert!(validate_persisted_size_objective(&config, None, 1000).is_ok());
    // Fixed bytes are shared by the expected rows: 32 of centroids and 32 of the table.
    assert!(validate_persisted_size_objective(&config, Some(64), 26).is_err());
    assert_eq!(persisted_code_budget(26, "IVF-PQ").unwrap(), 16);
    assert!(persisted_code_budget(10, "IVF-PQ").is_err());
}

#[test]
fn diskann_rows_are_estimated() {
    let build = DiskAnnBuildParams { max_degree: 4, ..DiskAnnBuildParams::default() };
    let with_codes = estimate_diskann_row_bytes(8, 2, 8, build).unwrap();
    let without = estimate_diskann_row_bytes(8, 0, 8, build).unwrap();
    assert_eq!(with_codes - without, 2);
    let half = DiskAnnBuildParams {
        raw_vector_encoding: DiskAnnRawVectorEncoding::F16,
        ..build
    };
    assert_eq!(without - estimate_diskann_row_bytes(8, 0, 8, half).unwrap(), 16);
}

#[test]
fn widths_are_inferred() {
    assert_eq!(infer_ivf_nlist(1_183_514).unwrap(), 1024);
    assert!(infer_ivf_nlist(0).is_err());
    let uncapped =
        infer_ivf_nprobe_with_filter_expansion_cap(256, 2_560_000, 3, Some(256_000), None).unwrap();
    let capped =
        infer_ivf_nprobe_with_filter_expansion_cap(256, 2_560_000, 3, Some(256_000), Some(4))
            .unwrap();
    let plain =
        infer_ivf_nprobe_with_filter_expansion_cap(256, 2_560_000, 3, None, None).unwrap();
    let one = infer_ivf_nprobe_with_filter_expansion_cap(256, 2_560_000, 3, Some(256_000), Some(1))
        .unwrap();
    assert_eq!(capped, 64);
    assert!(uncapped >= capped);
    assert_eq!(one, plain);
    assert!(infer_diskann_l_search(10).unwrap() >= 10);
    assert_eq!(default_training_vector_count(usize::MAX, 4).unwrap(), 1024);
    assert_eq!(default_training_vector_count(100, 4).unwrap(), 100);
}

#[test]
fn rq_bits_are_the_most_that_fit() {
    assert!(is_supported_rq_bits(4));
    assert!(!is_supported_rq_bits(9));
    assert!(!is_supported_rq_bits(0));
    assert_eq!(infer_rq_bits(100, 78).unwrap(), 3);
    assert!(infer_rq_bits(100, 1).is_err());
}

#[test]
fn presets_follow_the_deployment_profile() {
    let preset = |profile: DeploymentProfile| {
        diskann_build_preset(DiskAnnBuildPreset::Balanced, 128, profile, 1 << 30, 3).unwrap()
    };
    assert_eq!(
        preset(DeploymentProfile::LocalStorage).storage_layout,
        DiskAnnStorageLayout::Interleaved
    );
    assert_eq!(preset(DeploymentProfile::LocalStorage).seed, 3);
    assert_eq!(preset(DeploymentProfile::LocalStorage).memory_budget_bytes, 1 << 30);
}

#[test]
fn training_samples_are_bounded_by_memory() {
    let roomy = diskann_training_sample_limit(8, 8, 8 << 30).unwrap();
    assert_eq!(roomy, DISKANN_MAX_PQ_TRAINING_VECTORS);
    let tight = diskann_training_sample_limit(1024, 8, 128 << 20).unwrap();
    assert!(tight < DISKANN_MAX_PQ_TRAINING_VECTORS);
}
