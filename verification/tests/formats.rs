//! Bytes, texts, numbers, orders and small collections.
use vector_index::blocked::block_sorted_sq_codes;
use vector_index::error::ErrorKind;
use vector_index::filter::{
    decode_roaring_filter, decode_roaring_filter_cardinality, filter_size_from_count, RoaringFilter,
    RowIdFilter,
};
use vector_index::float_bits::{
    f32_is_finite, f32_is_less, f32_is_nan, f64_is_positive, write_f32_not_finite,
};
use vector_index::layout::{
    checked_list_offset, checked_section_size, usize_to_i32, validate_positive_i32,
};
use vector_index::le::{get_i32, get_i64, get_u32, get_words, put_i32, put_i64, put_u32};
use vector_index::probes::group_probes;
use vector_index::read_plan::{
    bounded_ivf_payload_batch_end, bounded_ivf_stream_chunk_rows, ivf_payload_is_oversized,
    plan_batch, ReadLimits, ReadStep,
};
use vector_index::rows::{gather_rows, scatter_rows};
use vector_index::sort::stable_order;
use vector_index::sorted_list::{arrange_rows, build_sorted_list};
use vector_index::text::{
    decimal_text, hex_text, is_text_before, parse_unsigned, signed_decimal_text, trim,
};
use vector_index::top_k::{merge_results, padded_results, scan_rows, ReaderTopKHeap};
use vector_index::validate::{validate_query, validate_vectors};
use vector_index::varint::{
    decode_delta_varint_ids, decode_varint, encode_delta_varint_ids, encode_varint,
};
use roaring::RoaringTreemap;

#[test]
fn little_endian_numbers_read_back() {
    let mut out = Vec::new();
    put_u32(&mut out, 0x0403_0201);
    put_i32(&mut out, -2);
    put_i64(&mut out, i64::MIN + 5);
    assert_eq!(out[..4], [1, 2, 3, 4]);
    assert_eq!(get_u32(&out, 0), 0x0403_0201);
    assert_eq!(get_i32(&out, 4), -2);
    assert_eq!(get_i64(&out, 8), i64::MIN + 5);
    assert_eq!(get_words(&out, 0, 2), vec![0x0403_0201, 0xFFFF_FFFE]);
}

#[test]
fn variable_length_numbers_read_back() {
    for (value, len) in [(0, 1), (127, 1), (128, 2), (16_384, 3), (u64::MAX, 10)] {
        let mut bytes = Vec::new();
        encode_varint(value, &mut bytes);
        assert_eq!(bytes.len(), len);
        assert_eq!(decode_varint(&bytes, 0).unwrap(), (value, len));
    }
    let message = |bytes: &[u8]| decode_varint(bytes, 0).unwrap_err().message;
    assert_eq!(decode_varint(&[0x80], 0).unwrap_err().kind, ErrorKind::InvalidData);
    assert_eq!(message(&[0x80]), "truncated varint");
    assert_eq!(
        message(&[0x80, 0x80, 0x80, 0x80, 0x80, 0x80, 0x80, 0x80, 0x80, 2]),
        "varint exceeds u64 range"
    );
    assert_eq!(
        message(&[0x80, 0x80, 0x80, 0x80, 0x80, 0x80, 0x80, 0x80, 0x80, 0x81, 0]),
        "varint exceeds 64 bits"
    );
}

#[test]
fn sorted_identifiers_read_back() {
    for ids in [vec![], vec![-7], vec![1, 130, 16_515], vec![i64::MIN, -1, 0, 0, i64::MAX]] {
        let (base, bytes) = encode_delta_varint_ids(&ids);
        assert_eq!(decode_delta_varint_ids(base, &bytes, ids.len()).unwrap(), ids);
    }
    assert_eq!(encode_delta_varint_ids(&[1, 130, 16_515]), (1, vec![0, 0x81, 1, 0x81, 0x80, 1]));
    // What follows the last number is not looked at.
    assert_eq!(decode_delta_varint_ids(0, &[0, 1, 1], 2).unwrap(), vec![0, 1]);
    assert!(decode_delta_varint_ids(0, &[0], 2).is_err());
    assert_eq!(
        decode_delta_varint_ids(i64::MAX, &[0, 1], 2).unwrap_err().message,
        "decoded ID sequence is not monotonically non-decreasing"
    );
}

#[test]
fn numbers_are_written_as_text() {
    assert_eq!(decimal_text(0), "0");
    assert_eq!(decimal_text(u64::MAX), "18446744073709551615");
    assert_eq!(signed_decimal_text(i64::MIN), "-9223372036854775808");
    assert_eq!(signed_decimal_text(42), "42");
    assert_eq!(hex_text(0xBEEF, 8), "0000BEEF");
}

#[test]
fn numbers_are_read_from_text() {
    assert_eq!(parse_unsigned("1024", u64::MAX), Some(1024));
    assert_eq!(parse_unsigned("+7", u64::MAX), Some(7));
    assert_eq!(parse_unsigned("007", 7), Some(7));
    for text in ["", "+", "-1", "1 ", "8", "99999999999999999999"] {
        assert_eq!(parse_unsigned(text, 7), None);
    }
    assert_eq!(trim(" \t nlist \n"), "nlist");
    assert_eq!(trim("\u{3000}"), "");
}

#[test]
fn texts_are_ordered() {
    assert!(is_text_before("a", "b"));
    assert!(is_text_before("a", "ab"));
    assert!(is_text_before("", "a"));
    assert!(!is_text_before("a", "a"));
    assert!(!is_text_before("pq.m", "pq.bits"));
}

#[test]
fn numbers_compare_by_their_bits() {
    let values = [f32::NEG_INFINITY, -1.5, -0.0, 0.0, 1.0e-40, 2.0, f32::MAX, f32::INFINITY];
    for &a in &values {
        for &b in &values {
            assert_eq!(f32_is_less(a.to_bits(), b.to_bits()), a < b);
        }
        assert_eq!(f32_is_finite(a.to_bits()), a.is_finite());
        assert!(!f32_is_nan(a.to_bits()));
    }
    assert!(f32_is_nan(f32::NAN.to_bits()));
    assert_eq!(write_f32_not_finite(f32::NEG_INFINITY.to_bits()), "-inf");
    assert!(f64_is_positive(0.5f64.to_bits()));
    assert!(!f64_is_positive(0.0f64.to_bits()));
    assert!(!f64_is_positive((-1.0f64).to_bits()));
}

#[test]
fn sizes_and_offsets_are_checked() {
    assert_eq!(checked_section_size("IVF-SQ", 3, 4).unwrap(), 12);
    assert_eq!(
        checked_section_size("IVF-SQ", usize::MAX, 2).unwrap_err().kind,
        ErrorKind::InvalidData
    );
    assert_eq!(checked_list_offset(64, 0).unwrap(), 64);
    assert!(checked_list_offset(-1, 3).is_err());
    assert_eq!(usize_to_i32(7, "count").unwrap(), 7);
    assert!(usize_to_i32(usize::MAX, "count").is_err());
    assert_eq!(validate_positive_i32(5, "d").unwrap(), 5);
    assert!(validate_positive_i32(0, "d").is_err());
}

#[test]
fn orders_are_stable() {
    assert_eq!(stable_order(&[5, -1, 5, 0]), vec![1, 3, 0, 2]);
    let list = build_sorted_list(&vec![50, 10, 50]);
    assert_eq!(list.order, vec![1, 0, 2]);
    assert_eq!(arrange_rows(&vec![1, 2, 3, 4, 5, 6], 2, &list.order), vec![3, 4, 1, 2, 5, 6]);
}

#[test]
fn codes_are_blocked_by_dimension() {
    // Three rows of two codes, in blocks of two rows.
    let blocked = block_sorted_sq_codes(&vec![1, 2, 3, 4, 5, 6], &vec![2, 0, 1], 2, 2);
    assert_eq!(blocked, vec![5, 1, 6, 2, 3, 4]);
}

#[test]
fn rows_are_gathered_and_scattered() {
    let mut values = vec![1, 2, 3, 4, 5, 6];
    assert_eq!(gather_rows(&values, &[2, 0], 3, 2), vec![5, 6, 1, 2]);
    scatter_rows(&mut values, &[0, 2], &[7, 8, 9, 10], 3, 2);
    assert_eq!(values, vec![7, 8, 3, 4, 9, 10]);
}

#[test]
fn the_nearest_rows_are_kept() {
    let mut heap = ReaderTopKHeap::new(2);
    assert_eq!(heap.worst_distance(), None);
    for (distance, id) in [(5.0f32, 1), (3.0, 2), (4.0, 3), (9.0, 4)] {
        heap.push(distance.to_bits(), id);
    }
    assert_eq!(heap.to_sorted(), vec![(3.0f32.to_bits(), 2), (4.0f32.to_bits(), 3)]);
    assert_eq!(heap.worst_distance(), Some(4.0f32.to_bits()));
    let mut merged = ReaderTopKHeap::new(3);
    merge_results(&mut merged, &heap.to_sorted());
    let (ids, distances) = padded_results(&merged, 3);
    assert_eq!(ids, vec![2, 3, -1]);
    assert_eq!(distances[2], f32::MAX.to_bits());
    let mut empty = ReaderTopKHeap::new(0);
    empty.push(0, 1);
    assert!(empty.to_sorted().is_empty());
}

#[test]
fn filters_admit_what_they_hold() {
    let mut map = RoaringTreemap::new();
    map.insert(3);
    map.insert(1 << 40);
    let mut bytes = Vec::new();
    map.serialize_into(&mut bytes).unwrap();
    let filter = decode_roaring_filter(&bytes).unwrap_or_else(|error| panic!("{}", error.message));
    assert!(filter.contains(3));
    assert!(filter.contains(1 << 40));
    assert!(!filter.contains(4));
    assert!(!filter.contains(-3));
    assert_eq!(decode_roaring_filter_cardinality(&bytes).unwrap(), 2);
    assert_eq!(filter_size_from_count(9).unwrap(), 9);
    assert!(decode_roaring_filter_cardinality(&bytes[..3]).is_err());
    let mut heap = ReaderTopKHeap::new(2);
    scan_rows(&[3, 4], &[2.0f32.to_bits(), 1.0f32.to_bits()], Some(&filter), &mut heap);
    assert_eq!(heap.to_sorted(), vec![(2.0f32.to_bits(), 3)]);
    let mut heap = ReaderTopKHeap::new(1);
    scan_rows::<RoaringFilter>(&[3, 4], &[2.0f32.to_bits(), 1.0f32.to_bits()], None, &mut heap);
    assert_eq!(heap.to_sorted(), vec![(1.0f32.to_bits(), 4)]);
}

#[test]
fn distances_that_are_not_numbers_stay_out() {
    let bits = |values: &[f32]| values.iter().map(|value| value.to_bits()).collect::<Vec<u32>>();
    let mut map = RoaringTreemap::new();
    map.insert(2);
    map.insert(3);
    let mut bytes = Vec::new();
    map.serialize_into(&mut bytes).unwrap();
    let filter = decode_roaring_filter(&bytes).unwrap_or_else(|error| panic!("{}", error.message));
    // A row that the filter rejects is not looked at.
    let mut heap = ReaderTopKHeap::new(2);
    scan_rows(&[1, 2, 3], &bits(&[f32::NAN, 5.0, 4.0]), Some(&filter), &mut heap);
    assert_eq!(heap.to_sorted(), vec![(4.0f32.to_bits(), 3), (5.0f32.to_bits(), 2)]);
    // A full collection takes only what is nearer than its farthest row.
    scan_rows::<RoaringFilter>(&[4], &bits(&[f32::NAN]), None, &mut heap);
    assert_eq!(heap.to_sorted(), vec![(4.0f32.to_bits(), 3), (5.0f32.to_bits(), 2)]);
    // The only place of a collection takes every distance, and keeps what is no number.
    let mut one = ReaderTopKHeap::new(1);
    scan_rows::<RoaringFilter>(&[1, 2], &bits(&[f32::NAN, 1.0]), None, &mut one);
    assert_eq!(one.to_sorted(), vec![(f32::NAN.to_bits(), 1)]);
}

#[test]
fn filters_count_what_their_containers_hold() {
    // One bitmap of two containers with the same key. Each of them holds the value 1.
    let mut bytes = Vec::new();
    bytes.extend_from_slice(&1u64.to_le_bytes());
    bytes.extend_from_slice(&0u32.to_le_bytes());
    bytes.extend_from_slice(&12346u32.to_le_bytes());
    bytes.extend_from_slice(&2u32.to_le_bytes());
    for _ in 0..2 {
        bytes.extend_from_slice(&0u16.to_le_bytes());
        bytes.extend_from_slice(&0u16.to_le_bytes());
    }
    for offset in [24u32, 26] {
        bytes.extend_from_slice(&offset.to_le_bytes());
    }
    for _ in 0..2 {
        bytes.extend_from_slice(&1u16.to_le_bytes());
    }
    let filter = decode_roaring_filter(&bytes).unwrap_or_else(|error| panic!("{}", error.message));
    assert!(filter.contains(1));
    assert!(!filter.contains(0));
    assert_eq!(decode_roaring_filter_cardinality(&bytes).unwrap(), 2);
}

#[test]
fn reads_are_planned_within_limits() {
    let limits = ReadLimits { payload_bytes: 10, max_ranges: 3 };
    assert!(ivf_payload_is_oversized(11, limits));
    assert!(!ivf_payload_is_oversized(10, limits));
    assert_eq!(bounded_ivf_payload_batch_end(&[4, 4, 4], limits), 2);
    assert_eq!(bounded_ivf_payload_batch_end(&[1, 1, 1, 1], limits), 3);
    assert_eq!(plan_batch(&[4, 4, 4], 5, limits), ReadStep::Batch { end: 7 });
    assert_eq!(bounded_ivf_stream_chunk_rows(100, 4, 0, 1, limits), 2);
    assert_eq!(bounded_ivf_stream_chunk_rows(100, 1, 0, 4, limits), 8);
    assert_eq!(bounded_ivf_stream_chunk_rows(3, 1, 0, 4, limits), 3);
}

#[test]
fn probes_are_grouped_by_list() {
    let probes = vec![vec![2, 0], vec![1, 2], vec![]];
    let plan = group_probes(&probes, 0, 3);
    assert_eq!(plan.lists, vec![2, 0, 1]);
    assert_eq!(plan.queries, vec![vec![0], vec![1], vec![0, 1]]);
    let later = group_probes(&probes, 1, 3);
    assert_eq!(later.lists, vec![0, 2]);
    assert_eq!(later.queries, vec![vec![0], vec![], vec![1]]);
}

#[test]
fn vectors_are_validated() {
    let rows = [0, 0, 0, 0];
    assert!(validate_vectors(&rows, 2, 2, "vector data").is_ok());
    assert_eq!(
        validate_vectors(&rows, usize::MAX, 2, "vector data").unwrap_err().message,
        "vector count * dimension overflows usize"
    );
    assert_eq!(
        validate_vectors(&rows, 0, 2, "vector data").unwrap_err().message,
        "vector count must be greater than 0"
    );
    assert_eq!(
        validate_query(&rows, 2).unwrap_err().message,
        "query length 4 does not match index dimension 2"
    );
    assert_eq!(
        validate_query(&[0, f32::INFINITY.to_bits()], 2).unwrap_err().message,
        "query contains non-finite value at offset 1: inf"
    );
}
