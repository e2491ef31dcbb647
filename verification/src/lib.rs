//! A vector index library: the persisted IVF-FLAT and IVF-SQ formats, index
//! configuration, and the planning of single, batched and filtered searches.
//!
//! Floating-point values travel through this crate as their IEEE 754 bit
//! patterns: `u32` for single precision and `u64` for double precision.

pub mod error;
pub mod float_bits;
pub mod le;
pub mod metric;
pub mod rows;
pub mod sort;
pub mod text;
pub mod validate;
pub mod varint;

pub mod autotune;
pub mod build_plan;
pub mod config;
pub mod config_laws;
pub mod diskann;
pub mod option_laws;
pub mod options;
pub mod pq;
pub mod pq_laws;
pub mod resolution_laws;
pub mod size;

pub mod blocked;
pub mod draws;
pub mod flat;
pub mod inverted_lists;
pub mod layout;
pub mod sorted_list;
pub mod sq;
pub mod trainer;
pub mod writer;

pub mod file_laws;
pub mod flat_laws;
pub mod flat_reader;
pub mod flat_reads;
pub mod read_options;
pub mod read_plan;
pub mod shape_laws;
pub mod sq_cache;
pub mod sq_laws;
pub mod sq_reader;
pub mod sq_reads;

pub mod acceptance_laws;
pub mod batch_laws;
pub mod cache_laws;
pub mod filter;
pub mod filter_laws;
pub mod flat_scan;
pub mod flat_search;
pub mod ivf_search;
pub mod nearest_laws;
pub mod order_laws;
pub mod plan_laws;
pub mod probes;
pub mod progressive;
pub mod range_laws;
pub mod reader;
pub mod round_laws;
pub mod search_laws;
pub mod search_params;
pub mod search_stats;
pub mod sq_scan;
pub mod sq_search;
pub mod store_laws;
pub mod top_k;
pub mod width_laws;
