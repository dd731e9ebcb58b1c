use empa_tk::count_buffer::CountBuffer;
use empa_tk::generate_dispatch::{workgroup_count, DispatchWorkgroups, GenerateDispatch};
use empa_tk::radix_sort::bucket_histogram::BucketHistogram;
use empa_tk::radix_sort::bucket_scatter::{BucketScatter, GroupState, GroupStatus};
use empa_tk::radix_sort::generate_dispatches::{GenerateDispatches, SegmentSizes};
use empa_tk::radix_sort::global_bucket_offsets::GlobalBucketOffsets;
use empa_tk::write_value_type::{push_decimal, write_value_type};

#[test]
fn count_buffer_binding_and_fallback() {
    let bound = CountBuffer::new(Some(12), 40);
    assert_eq!(bound.uniform(), 12);
    assert!(bound.dispatch_indirect());
    let owned = CountBuffer::new(None, 40);
    assert_eq!(owned.uniform(), 40);
    assert!(!owned.dispatch_indirect());
}

#[test]
fn workgroup_count_rounds_up() {
    assert_eq!(workgroup_count(0, 256), 0);
    assert_eq!(workgroup_count(1, 256), 1);
    assert_eq!(workgroup_count(256, 256), 1);
    assert_eq!(workgroup_count(257, 256), 2);
    assert_eq!(workgroup_count(1_000_000, 2048), 489);
}

#[test]
fn dispatch_generator_writes_record() {
    let mut record = DispatchWorkgroups { count_x: 0, count_y: 0, count_z: 0 };
    GenerateDispatch::init().encode(1024, 3000, &mut record);
    assert_eq!(record, DispatchWorkgroups { count_x: 3, count_y: 1, count_z: 1 });
}

#[test]
fn dispatches_generator_writes_both_records() {
    let mut histogram = DispatchWorkgroups { count_x: 0, count_y: 0, count_z: 0 };
    let mut scatter = DispatchWorkgroups { count_x: 0, count_y: 0, count_z: 0 };
    let sizes = SegmentSizes { histogram: 1024, scatter: 512 };
    GenerateDispatches::init().encode(&sizes, 2049, &mut histogram, &mut scatter);
    assert_eq!(histogram.count_x, 3);
    assert_eq!(scatter.count_x, 5);
    assert_eq!((scatter.count_y, scatter.count_z), (1, 1));
}

#[test]
fn value_type_declaration() {
    let mut s = String::from("// prelude\n");
    write_value_type::<[u32; 3]>(&mut s);
    assert_eq!(
        s,
        "// prelude\nstruct VALUE_TYPE {    field_0: u32,\n    field_1: u32,\n    field_2: u32,\n}\n\n"
    );
    let mut t = String::new();
    write_value_type::<()>(&mut t);
    assert_eq!(t, "struct VALUE_TYPE {}\n\n");
}

#[test]
fn value_type_declaration_with_many_fields() {
    let mut s = String::new();
    write_value_type::<[u32; 12]>(&mut s);
    assert!(s.ends_with("    field_10: u32,\n    field_11: u32,\n}\n\n"));
}

#[test]
fn decimal_notation() {
    let mut s = String::new();
    push_decimal(&mut s, 0);
    s.push(' ');
    push_decimal(&mut s, 4096);
    assert_eq!(s, "0 4096");
}

#[test]
fn packed_group_state() {
    let s = GroupState::new(GroupStatus::GlobalOffset, 0x3FFF_FFFF);
    assert_eq!(s.status(), 2);
    assert_eq!(s.value(), 0x3FFF_FFFF);
    assert_eq!(s.packed_data, 0xBFFF_FFFF);
    assert_eq!(s.group_status(), Some(GroupStatus::GlobalOffset));
    let l = GroupState::new(GroupStatus::LocalOffset, 17);
    assert_eq!(l.packed_data, 0x4000_0011);
    assert_eq!(l.group_status(), Some(GroupStatus::LocalOffset));
    assert_eq!(GroupState::zeroed().group_status(), Some(GroupStatus::NotReady));
    assert_eq!(GroupState { packed_data: 0xC000_0000 }.group_status(), None);
}

#[test]
fn histogram_and_offsets() {
    let data: Vec<u32> = vec![0x0403_0201, 0x0403_0202, 0x0103_0201, 0xff00_0000, 0x0000_00ff];
    let len = data.len() as u32;
    let mut hist = vec![0u32; 1024];
    let dispatch = DispatchWorkgroups { count_x: 1, count_y: 1, count_z: 1 };
    BucketHistogram::init_u32().encode(len, &data, &mut hist, false, &dispatch, len);
    assert_eq!(hist[0x01], 2);
    assert_eq!(hist[0x02], 1);
    assert_eq!(hist[0x00], 1);
    assert_eq!(hist[0xff], 1);
    assert_eq!(hist[256 + 0x02], 3);
    assert_eq!(hist[512 + 0x03], 3);
    assert_eq!(hist[768 + 0x04], 2);
    assert_eq!(hist[768 + 0xff], 1);
    assert_eq!(hist[768 + 0x00], 1);
    for p in 0..4 {
        assert_eq!(hist[p * 256..(p + 1) * 256].iter().sum::<u32>(), len);
    }
    GlobalBucketOffsets::init().encode(&mut hist);
    assert_eq!(hist[0x00], 0);
    assert_eq!(hist[0x01], 1);
    assert_eq!(hist[0x02], 3);
    assert_eq!(hist[0x03], 4);
    assert_eq!(hist[0xff], 4);
    assert_eq!(hist[768 + 0x01], 1);
    assert_eq!(hist[768 + 0x05], 4);
}

#[test]
fn offsets_wrap_like_the_device() {
    let mut hist = vec![0u32; 1024];
    hist[0] = u32::MAX;
    hist[1] = 2;
    GlobalBucketOffsets::init().encode(&mut hist);
    assert_eq!(hist[1], u32::MAX);
    assert_eq!(hist[2], 1);
}

#[test]
fn one_scatter_pass_is_stable_by_digit() {
    let data: Vec<u32> = vec![0x13, 0x02, 0x23, 0x01, 0x33, 0x02];
    let len = data.len() as u32;
    let mut hist = vec![0u32; 1024];
    let dispatch = DispatchWorkgroups { count_x: 1, count_y: 1, count_z: 1 };
    BucketHistogram::init_u32().encode(len, &data, &mut hist, false, &dispatch, len);
    GlobalBucketOffsets::init().encode(&mut hist);
    let mut out = vec![0u32; data.len()];
    BucketScatter::init_u32().encode(&data, &mut out, &hist, 0, len, false, &dispatch, len);
    assert_eq!(out, vec![0x01, 0x02, 0x02, 0x13, 0x23, 0x33]);
}
