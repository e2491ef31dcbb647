//! Search parameters.
use vector_index::search_params::{
    IvfPqBatchTableReuseMode, SearchWidth, VectorSearchParams,
};

#[test]
fn diskann_l_search_is_independent_of_ivf_nprobe() {
    let diskann = VectorSearchParams::with_l_search(10, 200);
    assert_eq!(diskann.search_width, SearchWidth::DiskAnnLSearch);
    assert_eq!(diskann.width, 200);
}

#[test]
fn configured_widths_belong_to_their_index_types() {
    let ivf = VectorSearchParams::new(10, 64);
    assert_eq!(ivf.configured_ivf_nprobe(), Some(64));
    assert_eq!(ivf.configured_diskann_l_search(), None);
    let graph = VectorSearchParams::with_l_search(10, 200);
    assert_eq!(graph.configured_ivf_nprobe(), None);
    assert_eq!(graph.configured_diskann_l_search(), Some(200));
    let automatic = VectorSearchParams::automatic(10);
    assert_eq!(automatic.configured_ivf_nprobe(), None);
    assert_eq!(automatic.configured_diskann_l_search(), None);
}

#[test]
fn tagged_search_width_rejects_cross_index_parameters() {
    assert_eq!(
        VectorSearchParams::automatic(10).resolve_ivf_nprobe(1024, 1_000_000, None).unwrap(),
        64
    );
    assert!(VectorSearchParams::with_l_search(10, 100)
        .resolve_ivf_nprobe(1024, 1_000_000, None)
        .unwrap_err()
        .message
        .contains("cannot be used with an IVF"));
    assert!(VectorSearchParams::new(10, 64)
        .resolve_diskann_l_search()
        .unwrap_err()
        .message
        .contains("cannot be used with a DiskANN"));
    assert!(VectorSearchParams::automatic(10)
        .with_max_initial_filter_expansion_factor(4)
        .resolve_diskann_l_search()
        .unwrap_err()
        .message
        .contains("only valid for IVF"));
}

#[test]
fn automatic_search_params_configure_initial_filter_expansion_cap() {
    let params = VectorSearchParams::automatic(3)
        .with_ivfpq_batch_table_reuse(IvfPqBatchTableReuseMode::Off)
        .with_ivfpq_batch_table_reuse_max_bytes(128 * 1024 * 1024)
        .with_max_initial_filter_expansion_factor(4);
    assert_eq!(params.max_initial_filter_expansion_factor, Some(4));
    assert_eq!(params.ivfpq_batch_table_reuse, IvfPqBatchTableReuseMode::Off);
    assert_eq!(params.ivfpq_batch_table_reuse_max_bytes, 128 * 1024 * 1024);
    assert_eq!(params.resolve_ivf_nprobe(256, 2_560_000, Some(256_000)).unwrap(), 64);
}

#[test]
fn initial_filter_expansion_cap_requires_positive_automatic_search() {
    assert!(VectorSearchParams::automatic(3)
        .with_max_initial_filter_expansion_factor(0)
        .validate()
        .unwrap_err()
        .message
        .contains("greater than 0"));
    assert!(VectorSearchParams::new(3, 16)
        .with_max_initial_filter_expansion_factor(4)
        .validate()
        .unwrap_err()
        .message
        .contains("automatic IVF search"));
}

#[test]
fn ivfpq_batch_table_reuse_is_auto_by_default_and_can_be_disabled() {
    let params = VectorSearchParams::new(10, 4);
    assert_eq!(params.ivfpq_batch_table_reuse, IvfPqBatchTableReuseMode::Auto);
    assert_eq!(params.ivfpq_batch_table_reuse_max_bytes, 512 * 1024 * 1024);
    assert_eq!(
        params
            .with_ivfpq_batch_table_reuse(IvfPqBatchTableReuseMode::Off)
            .ivfpq_batch_table_reuse,
        IvfPqBatchTableReuseMode::Off
    );
    assert_eq!(
        params
            .with_ivfpq_batch_table_reuse_max_bytes(128 * 1024 * 1024)
            .ivfpq_batch_table_reuse_max_bytes,
        128 * 1024 * 1024
    );
    assert!(params.with_ivfpq_batch_table_reuse_max_bytes(0).validate().is_err());
}

#[test]
fn search_params_reject_zero_top_k_before_index_dispatch() {
    assert!(VectorSearchParams::automatic(0).validate().unwrap_err().message.contains("top_k"));
    assert!(VectorSearchParams::new(0, 1).validate().is_err());
    assert!(VectorSearchParams::with_l_search(0, 100).validate().is_err());
}

#[test]
fn stated_nprobe_is_limited_to_the_lists() {
    assert_eq!(VectorSearchParams::new(3, 16).resolve_ivf_nprobe(8, 100, None).unwrap(), 8);
    assert_eq!(VectorSearchParams::new(3, 5).resolve_ivf_nprobe(8, 100, None).unwrap(), 5);
    assert_eq!(
        VectorSearchParams::new(3, 0).resolve_ivf_nprobe(8, 100, None).unwrap_err().message,
        "nprobe must be greater than 0"
    );
}

#[test]
fn graph_searches_keep_at_least_top_k_candidates() {
    let stated = VectorSearchParams::with_l_search(50, 20);
    assert_eq!(stated.resolve_diskann_l_search().unwrap(), 50);
    assert_eq!(
        VectorSearchParams::with_l_search(50, 0).resolve_diskann_l_search().unwrap_err().message,
        "l_search must be greater than 0"
    );
    let automatic = VectorSearchParams::automatic(50);
    assert_eq!(automatic.resolve_diskann_l_search_with(Some(77)).unwrap(), 77);
    assert_eq!(automatic.resolve_diskann_l_search_with(Some(7)).unwrap(), 50);
    // What is stated comes before what was calibrated.
    assert_eq!(
        VectorSearchParams::with_l_search(5, 90).resolve_diskann_l_search_with(Some(7)).unwrap(),
        90
    );
}
