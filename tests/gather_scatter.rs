use empa_tk::gather_by::{GatherBy, GatherByInput};
use empa_tk::scatter_by::{ScatterBy, ScatterByInput};

#[test]
fn scatter_reversal() {
    let n = 10_000u32;
    let mut scatter = ScatterBy::<u32, u32>::init_u32();
    let input = ScatterByInput { scatter_by: (0..n).rev().collect(), data: (0..n).collect(), count: None };
    let mut output = vec![0u32; n as usize];
    scatter.encode(&input, &mut output);
    for i in 0..n as usize {
        assert_eq!(output[i], n - 1 - i as u32);
    }
}

#[test]
fn gather_reads_through_indices() {
    let mut gather = GatherBy::<u32, char>::init_u32();
    let input = GatherByInput { gather_by: vec![2, 0, 2, 1], data: vec!['x', 'y', 'z'], count: None };
    let mut output = vec!['-'; 4];
    gather.encode(&input, &mut output);
    assert_eq!(output, vec!['z', 'x', 'z', 'y']);
}

#[test]
fn gather_with_count() {
    let mut gather = GatherBy::<u32, u32>::init_u32();
    let input = GatherByInput { gather_by: vec![3, 2, 1, 0], data: vec![10, 20, 30, 40], count: Some(2) };
    let mut output = vec![0u32; 4];
    gather.encode(&input, &mut output);
    assert_eq!(output, vec![40, 30, 0, 0]);
}

#[test]
fn gather_with_signed_indices() {
    let mut gather = GatherBy::<i32, u64>::init_i32();
    let input = GatherByInput { gather_by: vec![1, 1, 0], data: vec![100u64, 200, 300], count: None };
    let mut output = vec![0u64; 3];
    gather.encode(&input, &mut output);
    assert_eq!(output, vec![200, 200, 100]);
}

#[test]
fn scatter_then_gather_restores_values() {
    let n = 3_000u32;
    let idx: Vec<u32> = (0..n).map(|i| (i * 7 + 3) % n).collect();
    let x: Vec<u32> = (0..n).map(|i| i * i).collect();
    let mut gather = GatherBy::<u32, u32>::init_u32();
    let mut gathered = vec![0u32; n as usize];
    gather.encode(&GatherByInput { gather_by: idx.clone(), data: x.clone(), count: None }, &mut gathered);
    let mut scatter = ScatterBy::<u32, u32>::init_u32();
    let mut restored = vec![0u32; n as usize];
    scatter.encode(&ScatterByInput { scatter_by: idx, data: gathered, count: None }, &mut restored);
    assert_eq!(restored, x);
}

#[test]
fn scatter_with_duplicate_indices_keeps_last_write() {
    let mut scatter = ScatterBy::<u32, u32>::init_u32();
    let input = ScatterByInput { scatter_by: vec![1, 1, 3], data: vec![5, 6, 7], count: None };
    let mut output = vec![0u32; 5];
    scatter.encode(&input, &mut output);
    assert_eq!(output, vec![0, 6, 0, 7, 0]);
}

#[test]
fn scatter_with_count_and_signed_indices() {
    let mut scatter = ScatterBy::<i32, u32>::init_i32();
    let input = ScatterByInput { scatter_by: vec![2, 0, 1], data: vec![1, 2, 3], count: Some(2) };
    let mut output = vec![9u32; 3];
    scatter.encode(&input, &mut output);
    assert_eq!(output, vec![2, 9, 1]);
}

#[test]
fn gather_defaults_to_every_index() {
    let mut gather = GatherBy::<u32, u32>::init_u32();
    let input = GatherByInput { gather_by: vec![4, 0], data: vec![10, 20, 30, 40, 50], count: None };
    let mut output = vec![0u32; 2];
    gather.encode(&input, &mut output);
    assert_eq!(output, vec![50, 10]);
}
