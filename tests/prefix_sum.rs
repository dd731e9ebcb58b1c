use empa_tk::prefix_sum::exclusive::PrefixSumExclusive;
use empa_tk::prefix_sum::{PrefixSum, PrefixSumInput};

fn reference_inclusive(data: &[u32]) -> Vec<u32> {
    let mut acc: u32 = 0;
    data.iter()
        .map(|v| {
            acc = acc.wrapping_add(*v);
            acc
        })
        .collect()
}

#[test]
fn exclusive_scan_of_ones() {
    let mut scan = PrefixSum::<u32>::init_exclusive_u32();
    let mut input = PrefixSumInput { data: vec![1u32; 1_000_000], count: None };
    scan.encode(&mut input);
    for (i, v) in input.data.iter().enumerate() {
        assert_eq!(*v, i as u32);
    }
}

#[test]
fn inclusive_scan_of_ones() {
    let mut scan = PrefixSum::<u32>::init_inclusive_u32();
    let mut input = PrefixSumInput { data: vec![1u32; 1_000_000], count: None };
    scan.encode(&mut input);
    for (i, v) in input.data.iter().enumerate() {
        assert_eq!(*v, i as u32 + 1);
    }
}

#[test]
fn inclusive_scan_matches_reference_across_tiles() {
    let data: Vec<u32> = (0..10_000u32).map(|i| i.wrapping_mul(2_654_435_761) >> 7).collect();
    let expected = reference_inclusive(&data);
    let mut scan = PrefixSum::<u32>::init_inclusive_u32();
    let mut input = PrefixSumInput { data, count: None };
    scan.encode(&mut input);
    assert_eq!(input.data, expected);
}

#[test]
fn scan_wraps_on_overflow() {
    let mut scan = PrefixSum::<u32>::init_inclusive_u32();
    let mut input = PrefixSumInput { data: vec![u32::MAX, 2, 3], count: None };
    scan.encode(&mut input);
    assert_eq!(input.data, vec![u32::MAX, 1, 4]);
}

#[test]
fn exclusive_scan_of_signed_values() {
    let mut scan = PrefixSum::<i32>::init_exclusive_i32();
    let mut input = PrefixSumInput { data: vec![5, -3, -4, 10, 0], count: None };
    scan.encode(&mut input);
    assert_eq!(input.data, vec![0, 5, 2, -2, 8]);
}

#[test]
fn inclusive_scan_of_signed_values() {
    let mut scan = PrefixSum::<i32>::init_inclusive_i32();
    let mut input = PrefixSumInput { data: vec![5, -3, -4, 10, 0], count: None };
    scan.encode(&mut input);
    assert_eq!(input.data, vec![5, 2, -2, 8, 8]);
}

#[test]
fn scan_of_empty_data() {
    let mut scan = PrefixSum::<u32>::init_inclusive_u32();
    let mut input = PrefixSumInput { data: Vec::new(), count: None };
    scan.encode(&mut input);
    assert!(input.data.is_empty());
}

#[test]
fn scan_with_count_matches_truncated_buffer() {
    let data: Vec<u32> = (0..5_000u32).map(|i| (i * 7) % 13).collect();
    let n = 3_000usize;
    let mut with_count = PrefixSumInput { data: data.clone(), count: Some(n as u32) };
    let mut truncated = PrefixSumInput { data: data[..n].to_vec(), count: None };
    let mut scan = PrefixSum::<u32>::init_exclusive_u32();
    scan.encode(&mut with_count);
    scan.encode(&mut truncated);
    assert_eq!(&with_count.data[..n], &truncated.data[..]);
    assert_eq!(&with_count.data[n..], &data[n..]);
    assert_eq!(with_count.count, Some(n as u32));
}

#[test]
fn scan_with_zero_count_changes_nothing() {
    let mut scan = PrefixSum::<u32>::init_inclusive_u32();
    let mut input = PrefixSumInput { data: vec![4, 5, 6], count: Some(0) };
    scan.encode(&mut input);
    assert_eq!(input.data, vec![4, 5, 6]);
}

#[test]
fn scan_instance_is_reusable_with_larger_input() {
    let mut scan = PrefixSum::<u32>::init_inclusive_u32();
    let mut small = PrefixSumInput { data: vec![2u32; 10], count: None };
    scan.encode(&mut small);
    assert_eq!(small.data[9], 20);
    let mut large = PrefixSumInput { data: vec![2u32; 9_000], count: None };
    scan.encode(&mut large);
    assert_eq!(large.data[8_999], 18_000);
}

#[test]
fn older_exclusive_scan_of_ones() {
    let mut scan = PrefixSumExclusive::<u32>::init_u32();
    let mut data = vec![1u32; 5_000];
    scan.encode(&mut data);
    for (i, v) in data.iter().enumerate() {
        assert_eq!(*v, i as u32);
    }
}

#[test]
fn older_exclusive_scan_of_signed_values() {
    let mut scan = PrefixSumExclusive::<i32>::init_i32();
    let mut data = vec![-1, -2, 3];
    scan.encode(&mut data);
    assert_eq!(data, vec![0, -1, -3]);
}
