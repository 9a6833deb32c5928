use mpi::buffer::AsDatatype;
use mpi::datatype::{Datatype, ScalarKind};
use mpi::partition::{Partition, PartitionMut, Partitioned};

#[test]
fn partition_accepts_in_bounds_tables() {
    let v: Vec<u64> = vec![0; 6];
    let p = Partition::try_new(&v[..], vec![2, 2, 2], vec![0, 2, 4]);
    assert!(p.is_some());
    let p = p.unwrap();
    assert_eq!(p.counts(), &vec![2, 2, 2]);
    assert_eq!(p.displs(), &vec![0, 2, 4]);
}

#[test]
fn partition_rejects_a_pair_past_the_buffer() {
    let v: Vec<u64> = vec![0; 6];
    assert!(Partition::try_new(&v[..], vec![2, 2, 2], vec![0, 2, 5]).is_none());
}

#[test]
fn partition_rejects_mismatched_tables() {
    let v: Vec<u64> = vec![0; 6];
    assert!(Partition::try_new(&v[..], vec![2, 2], vec![0, 2, 4]).is_none());
    assert!(Partition::try_new(&v[..], vec![2, 2, 2], vec![0, 2]).is_none());
}

#[test]
fn partition_accepts_overlapping_partitions() {
    // overlap within bounds is not rejected: only reaching past the end is
    let v: Vec<i32> = vec![0; 4];
    assert!(Partition::try_new(&v[..], vec![3, 3], vec![0, 1]).is_some());
}

#[test]
fn partition_exposes_the_buffer_datatype() {
    let v: Vec<i32> = vec![0; 3];
    let p = Partition::try_new(&v[..], vec![1, 2], vec![0, 1]).unwrap();
    assert_eq!(p.as_datatype().base(), ScalarKind::Int32);
}

#[test]
fn partition_of_empty_tables() {
    let v: Vec<u8> = vec![0; 2];
    let p = Partition::try_new(&v[..], Vec::new(), Vec::new());
    assert!(p.is_some());
    assert_eq!(p.unwrap().counts().len(), 0);
}

#[test]
fn partition_mut_accepts_in_bounds_tables() {
    let mut v: Vec<u64> = vec![0; 6];
    let p = PartitionMut::try_new(&mut v[..], vec![2, 2, 2], vec![0, 2, 4]);
    assert!(p.is_some());
    let p = p.unwrap();
    assert_eq!(p.counts(), &vec![2, 2, 2]);
    assert_eq!(p.displs(), &vec![0, 2, 4]);
}

#[test]
fn partition_mut_rejects_a_pair_past_the_buffer() {
    let mut v: Vec<u64> = vec![0; 6];
    assert!(PartitionMut::try_new(&mut v[..], vec![2, 2, 2], vec![0, 2, 5]).is_none());
}

#[test]
fn partition_bounds_check_does_not_overflow() {
    let v: Vec<i32> = vec![0; 3];
    assert!(Partition::try_new(&v[..], vec![i32::MAX], vec![i32::MAX]).is_none());
}
