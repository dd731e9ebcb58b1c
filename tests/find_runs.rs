use empa_tk::find_runs::{FindRuns, FindRunsInput, FindRunsOutput};

fn find_runs_u32(data: Vec<u32>, count: Option<u32>) -> FindRunsOutput {
    let len = data.len();
    let mut runs = FindRuns::<u32>::init_u32();
    let mut output = FindRunsOutput { run_count: 0, run_starts: vec![u32::MAX; len], run_mapping: vec![7; len] };
    runs.encode(&FindRunsInput { data, count }, &mut output);
    output
}

#[test]
fn find_runs_block_lengths() {
    let mut data = Vec::new();
    for b in 0..10u32 {
        for _ in 0..(b + 1) * 1000 {
            data.push(b * 3 + 1);
        }
    }
    let output = find_runs_u32(data, None);
    assert_eq!(output.run_count, 10);
    assert_eq!(
        &output.run_starts[..10],
        &[0, 1000, 3000, 6000, 10000, 15000, 21000, 28000, 36000, 45000]
    );
    assert_eq!(output.run_mapping[0], 1);
    assert_eq!(output.run_mapping[999], 1);
    assert_eq!(output.run_mapping[1000], 2);
    assert_eq!(output.run_mapping[54_999], 10);
}

#[test]
fn find_runs_small() {
    let output = find_runs_u32(vec![4, 4, 1, 1, 1, 4, 9], None);
    assert_eq!(output.run_count, 4);
    assert_eq!(&output.run_starts[..4], &[0, 2, 5, 6]);
    assert_eq!(output.run_mapping, vec![1, 1, 2, 2, 2, 3, 4]);
    assert_eq!(&output.run_starts[4..], &[u32::MAX; 3]);
}

#[test]
fn find_runs_all_distinct_and_all_equal() {
    let distinct = find_runs_u32(vec![1, 2, 3], None);
    assert_eq!(distinct.run_count, 3);
    assert_eq!(distinct.run_starts, vec![0, 1, 2]);
    let equal = find_runs_u32(vec![5; 4000], None);
    assert_eq!(equal.run_count, 1);
    assert_eq!(equal.run_starts[0], 0);
    assert!(equal.run_mapping.iter().all(|m| *m == 1));
}

#[test]
fn find_runs_of_empty_data() {
    let output = find_runs_u32(Vec::new(), None);
    assert_eq!(output.run_count, 0);
    assert!(output.run_mapping.is_empty());
}

#[test]
fn find_runs_with_count() {
    let output = find_runs_u32(vec![1, 1, 2, 3, 3, 3], Some(4));
    assert_eq!(output.run_count, 3);
    assert_eq!(&output.run_starts[..3], &[0, 2, 3]);
    assert_eq!(output.run_mapping, vec![1, 1, 2, 3, 0, 0]);
}

#[test]
fn find_runs_with_count_matches_truncated_buffer() {
    let data: Vec<u32> = (0..6000u32).map(|i| i / 7).collect();
    let with_count = find_runs_u32(data.clone(), Some(3000));
    let truncated = find_runs_u32(data[..3000].to_vec(), None);
    assert_eq!(with_count.run_count, truncated.run_count);
    assert_eq!(&with_count.run_mapping[..3000], &truncated.run_mapping[..]);
    let r = truncated.run_count as usize;
    assert_eq!(&with_count.run_starts[..r], &truncated.run_starts[..r]);
}

#[test]
fn find_runs_cover_properties() {
    let data: Vec<u32> = (0..5000u32).map(|i| (i / 13) % 4).collect();
    let output = find_runs_u32(data.clone(), None);
    let r = output.run_count as usize;
    assert_eq!(output.run_starts[0], 0);
    for k in 0..r - 1 {
        assert!(output.run_starts[k] < output.run_starts[k + 1]);
    }
    for (i, v) in data.iter().enumerate() {
        let run = output.run_mapping[i] as usize - 1;
        let start = output.run_starts[run] as usize;
        let next = if run + 1 < r { output.run_starts[run + 1] as usize } else { data.len() };
        assert!(start <= i && i < next);
        assert_eq!(*v, data[start]);
    }
}

#[test]
fn find_runs_of_signed_values() {
    let mut runs = FindRuns::<i32>::init_i32();
    let data = vec![-1, -1, 0, -1, 5, 5];
    let mut output = FindRunsOutput { run_count: 0, run_starts: vec![0; 6], run_mapping: vec![0; 6] };
    runs.encode(&FindRunsInput { data, count: None }, &mut output);
    assert_eq!(output.run_count, 4);
    assert_eq!(&output.run_starts[..4], &[0, 2, 3, 4]);
    assert_eq!(output.run_mapping, vec![1, 1, 2, 3, 4, 4]);
}

#[test]
fn find_runs_into_longer_buffers() {
    let mut runs = FindRuns::<u32>::init_u32();
    let mut output = FindRunsOutput { run_count: 0, run_starts: vec![9; 8], run_mapping: vec![9; 8] };
    runs.encode(&FindRunsInput { data: vec![3, 3, 4, 4, 4], count: None }, &mut output);
    assert_eq!(output.run_count, 2);
    assert_eq!(output.run_mapping, vec![1, 1, 2, 2, 2, 0, 0, 0]);
    assert_eq!(output.run_starts, vec![0, 2, 9, 9, 9, 9, 9, 9]);
}
