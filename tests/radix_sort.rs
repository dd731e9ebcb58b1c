use empa_tk::radix_sort::canonical::{
    canonicalize_f32_bits, canonicalize_i32, decanonicalize_f32_bits, decanonicalize_i32,
};
use empa_tk::radix_sort::{RadixSort, RadixSortBy, RadixSortByInput, RadixSortInput};

fn pseudo_random(seed: u64, n: usize) -> Vec<u32> {
    let mut state = seed;
    (0..n)
        .map(|_| {
            state = state.wrapping_mul(6_364_136_223_846_793_005).wrapping_add(1_442_695_040_888_963_407);
            (state >> 32) as u32
        })
        .collect()
}

fn sort_keys(keys: Vec<u32>, count: Option<u32>) -> Vec<u32> {
    let len = keys.len();
    let mut sort = RadixSort::init_u32();
    let mut input = RadixSortInput { data: keys, temporary_storage: vec![0; len], count };
    sort.encode(&mut input);
    input.data
}

#[test]
fn radix_sort_small() {
    assert_eq!(sort_keys(vec![5, 2, 9, 2, 1, 5, 3, 0], None), vec![0, 1, 2, 2, 3, 5, 5, 9]);
}

#[test]
fn radix_sort_by_small_keeps_equal_keys_in_order() {
    let mut sort = RadixSortBy::init_u32();
    let mut input = RadixSortByInput {
        keys: vec![5u32, 2, 9, 2, 1, 5, 3, 0],
        values: vec!['a', 'b', 'c', 'd', 'e', 'f', 'g', 'h'],
        temporary_key_storage: vec![0; 8],
        temporary_value_storage: vec![' '; 8],
        count: None,
    };
    sort.encode(&mut input);
    assert_eq!(input.keys, vec![0, 1, 2, 2, 3, 5, 5, 9]);
    assert_eq!(input.values, vec!['h', 'e', 'b', 'd', 'g', 'a', 'f', 'c']);
}

#[test]
fn radix_sort_large_random() {
    let keys = pseudo_random(1, 1_000_000);
    let mut expected = keys.clone();
    expected.sort();
    assert_eq!(sort_keys(keys, None), expected);
}

#[test]
fn radix_sort_by_large_random_matches_stable_sort() {
    let keys: Vec<u32> = pseudo_random(7, 100_000).iter().map(|k| k % 5_000).collect();
    let values: Vec<u32> = (0..keys.len() as u32).collect();
    let mut pairs: Vec<(u32, u32)> = keys.iter().cloned().zip(values.iter().cloned()).collect();
    pairs.sort_by_key(|p| p.0);
    let len = keys.len();
    let mut sort = RadixSortBy::init_u32();
    let mut input = RadixSortByInput {
        keys,
        values,
        temporary_key_storage: vec![0; len],
        temporary_value_storage: vec![0; len],
        count: None,
    };
    sort.encode(&mut input);
    let expected_keys: Vec<u32> = pairs.iter().map(|p| p.0).collect();
    let expected_values: Vec<u32> = pairs.iter().map(|p| p.1).collect();
    assert_eq!(input.keys, expected_keys);
    assert_eq!(input.values, expected_values);
}

#[test]
fn radix_sort_with_count_leaves_tail() {
    let keys = vec![9u32, 8, 7, 6, 5, 4, 3];
    let sorted = sort_keys(keys, Some(4));
    assert_eq!(sorted, vec![6, 7, 8, 9, 5, 4, 3]);
}

#[test]
fn radix_sort_with_count_matches_truncated_buffer() {
    let keys = pseudo_random(3, 5_000);
    let n = 2_500usize;
    let with_count = sort_keys(keys.clone(), Some(n as u32));
    let truncated = sort_keys(keys[..n].to_vec(), None);
    assert_eq!(&with_count[..n], &truncated[..]);
    assert_eq!(&with_count[n..], &keys[n..]);
}

#[test]
fn radix_sort_of_empty_and_single() {
    assert_eq!(sort_keys(Vec::new(), None), Vec::<u32>::new());
    assert_eq!(sort_keys(vec![42], None), vec![42]);
}

#[test]
fn radix_sort_of_extreme_keys() {
    assert_eq!(
        sort_keys(vec![u32::MAX, 0, 0x8000_0000, 0x00ff_ff00, 1, u32::MAX], None),
        vec![0, 1, 0x00ff_ff00, 0x8000_0000, u32::MAX, u32::MAX]
    );
}

#[test]
fn half_precision_sorts_small_keys() {
    let keys: Vec<u32> = pseudo_random(11, 3_000).iter().map(|k| k & 0xffff).collect();
    let mut expected = keys.clone();
    expected.sort();
    let len = keys.len();
    let mut sort = RadixSort::init_u32();
    let mut input = RadixSortInput { data: keys, temporary_storage: vec![0; len], count: None };
    sort.encode_half_precision(&mut input);
    assert_eq!(input.data, expected);
}

#[test]
fn half_precision_orders_by_low_bits_only() {
    let mut sort = RadixSort::init_u32();
    let mut input = RadixSortInput { data: vec![0x1_0002, 0x0003, 0x2_0001], temporary_storage: vec![0; 3], count: None };
    sort.encode_half_precision(&mut input);
    assert_eq!(input.data, vec![0x2_0001, 0x1_0002, 0x0003]);
}

#[test]
fn half_precision_sort_by_carries_values() {
    let mut sort = RadixSortBy::init_u32();
    let mut input = RadixSortByInput {
        keys: vec![3u32, 1, 3, 2],
        values: vec![10u64, 11, 12, 13],
        temporary_key_storage: vec![0; 4],
        temporary_value_storage: vec![0; 4],
        count: None,
    };
    sort.encode_half_precision(&mut input);
    assert_eq!(input.keys, vec![1, 2, 3, 3]);
    assert_eq!(input.values, vec![11, 13, 10, 12]);
}

#[test]
fn canonical_i32_round_trip_and_order() {
    let values = [i32::MIN, -100, -1, 0, 1, 77, i32::MAX];
    for v in values {
        assert_eq!(decanonicalize_i32(canonicalize_i32(v)), v);
    }
    for w in values.windows(2) {
        assert!(canonicalize_i32(w[0]) < canonicalize_i32(w[1]));
    }
    assert_eq!(canonicalize_i32(0), 0x8000_0000);
    assert_eq!(canonicalize_i32(-1), 0x7fff_ffff);
}

#[test]
fn canonical_f32_round_trip_and_order() {
    let values = [f32::NEG_INFINITY, -2.5f32, -1.0, -0.0, 0.0, 1.0e-3, 3.5, f32::INFINITY];
    for v in values {
        assert_eq!(decanonicalize_f32_bits(canonicalize_f32_bits(v.to_bits())), v.to_bits());
    }
    for w in values.windows(2) {
        assert!(canonicalize_f32_bits(w[0].to_bits()) < canonicalize_f32_bits(w[1].to_bits()));
    }
    let nan = f32::NAN.to_bits();
    assert_eq!(decanonicalize_f32_bits(canonicalize_f32_bits(nan)), nan);
    assert_eq!(canonicalize_f32_bits((-1.0f32).to_bits()), !(-1.0f32).to_bits());
}

#[test]
fn sorting_canonical_signed_keys_sorts_the_signed_keys() {
    let signed = vec![3i32, -7, 0, i32::MIN, 12, -1];
    let keys: Vec<u32> = signed.iter().map(|v| canonicalize_i32(*v)).collect();
    let sorted: Vec<i32> = sort_keys(keys, None).iter().map(|k| decanonicalize_i32(*k)).collect();
    assert_eq!(sorted, vec![i32::MIN, -7, -1, 0, 3, 12]);
}
