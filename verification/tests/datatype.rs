use mpi::datatype::{Datatype, Equivalence, ScalarKind, SystemDatatype, UserDatatype, size_of_kind};

fn offsets_of<D: Datatype>(d: &D) -> Vec<i64> {
    let mut r: Vec<i64> = Vec::new();
    let mut i = 0;
    while i < d.element_count() {
        r.push(d.element_offset(i));
        i += 1;
    }
    r
}

#[test]
fn system_datatypes_have_expected_kinds() {
    assert_eq!(i8::equivalent_datatype().kind, ScalarKind::Int8);
    assert_eq!(i16::equivalent_datatype().kind, ScalarKind::Int16);
    assert_eq!(i32::equivalent_datatype().kind, ScalarKind::Int32);
    assert_eq!(i64::equivalent_datatype().kind, ScalarKind::Int64);
    assert_eq!(u8::equivalent_datatype().kind, ScalarKind::UInt8);
    assert_eq!(u16::equivalent_datatype().kind, ScalarKind::UInt16);
    assert_eq!(u32::equivalent_datatype().kind, ScalarKind::UInt32);
    assert_eq!(u64::equivalent_datatype().kind, ScalarKind::UInt64);
}

#[test]
fn system_datatype_layout_is_one_scalar() {
    let d = i32::equivalent_datatype();
    assert_eq!(d.element_count(), 1);
    assert_eq!(d.element_offset(0), 0);
    assert_eq!(d.extent(), 4);
    assert_eq!(d.lower_bound(), 0);
    assert_eq!(d.base(), ScalarKind::Int32);
}

#[test]
fn kind_sizes_match_scalar_widths() {
    assert_eq!(size_of_kind(ScalarKind::Int8), 1);
    assert_eq!(size_of_kind(ScalarKind::UInt16), 2);
    assert_eq!(size_of_kind(ScalarKind::Float32), 4);
    assert_eq!(size_of_kind(ScalarKind::Float64), 8);
    assert_eq!(size_of_kind(ScalarKind::UInt64), 8);
}

#[test]
fn contiguous_of_one_matches_base_datatype() {
    let d = i32::equivalent_datatype();
    let c = UserDatatype::contiguous(1, &d);
    assert_eq!(c.element_count(), d.element_count());
    assert_eq!(offsets_of(&c), offsets_of(&d));
    assert_eq!(c.extent(), d.extent());
    assert_eq!(c.base(), d.base());
}

#[test]
fn contiguous_concatenates_instances() {
    let d = u16::equivalent_datatype();
    let c = UserDatatype::contiguous(3, &d);
    assert_eq!(offsets_of(&c), vec![0, 2, 4]);
    assert_eq!(c.extent(), 6);
}

#[test]
fn vector_blocks_start_at_stride_multiples() {
    let d = i32::equivalent_datatype();
    let v = UserDatatype::vector(3, 2, 4, &d);
    // blocks of 2 elements start at element offsets 0, 4 and 8
    assert_eq!(offsets_of(&v), vec![0, 4, 16, 20, 32, 36]);
    assert_eq!(v.extent(), 40);
    assert_eq!(v.lower_bound(), 0);
}

#[test]
fn heterogeneous_vector_strides_in_bytes() {
    let d = i32::equivalent_datatype();
    let v = UserDatatype::heterogeneous_vector(3, 2, 9, &d);
    assert_eq!(offsets_of(&v), vec![0, 4, 9, 13, 18, 22]);
    assert_eq!(v.extent(), 26);
}

#[test]
fn indexed_places_blocks_at_element_displacements() {
    let d = i32::equivalent_datatype();
    let t = UserDatatype::indexed(&vec![2, 1], &vec![0, 5], &d);
    assert_eq!(offsets_of(&t), vec![0, 4, 20]);
    assert_eq!(t.extent(), 24);
}

#[test]
fn heterogeneous_indexed_places_blocks_at_byte_displacements() {
    let d = i16::equivalent_datatype();
    let t = UserDatatype::heterogeneous_indexed(&vec![2, 1], &vec![1, 11], &d);
    assert_eq!(offsets_of(&t), vec![1, 3, 11]);
    assert_eq!(t.lower_bound(), 1);
    assert_eq!(t.extent(), 12);
}

#[test]
fn indexed_block_shares_one_length() {
    let d = i32::equivalent_datatype();
    let t = UserDatatype::indexed_block(2, &vec![0, 4], &d);
    assert_eq!(offsets_of(&t), vec![0, 4, 16, 20]);
}

#[test]
fn heterogeneous_indexed_block_shares_one_length() {
    let d = i32::equivalent_datatype();
    let t = UserDatatype::heterogeneous_indexed_block(1, &vec![2, 10], &d);
    assert_eq!(offsets_of(&t), vec![2, 10]);
}

#[test]
fn combinators_compose() {
    let d = i32::equivalent_datatype();
    let inner = UserDatatype::contiguous(2, &d); // two ints, extent 8
    let outer = UserDatatype::vector(2, 1, 2, &inner); // blocks 16 bytes apart
    assert_eq!(offsets_of(&outer), vec![0, 4, 16, 20]);
    assert_eq!(outer.base(), ScalarKind::Int32);
}

#[test]
fn negative_displacements_move_the_lower_bound() {
    let d = i32::equivalent_datatype();
    let t = UserDatatype::indexed(&vec![1, 1], &vec![-2, 1], &d);
    assert_eq!(offsets_of(&t), vec![-8, 4]);
    assert_eq!(t.lower_bound(), -8);
    assert_eq!(t.extent(), 16);
}

#[test]
fn try_indexed_rejects_mismatched_lengths() {
    let d = i32::equivalent_datatype();
    assert!(UserDatatype::try_indexed(&vec![1, 2], &vec![0], &d).is_none());
    assert!(UserDatatype::try_indexed(&vec![1], &vec![0, 3], &d).is_none());
    let t = UserDatatype::try_indexed(&vec![1, 2], &vec![0, 2], &d);
    assert!(t.is_some());
    assert_eq!(offsets_of(&t.unwrap()), vec![0, 8, 12]);
}

#[test]
fn try_heterogeneous_indexed_rejects_mismatched_lengths() {
    let d = i32::equivalent_datatype();
    assert!(UserDatatype::try_heterogeneous_indexed(&vec![1, 2], &vec![0], &d).is_none());
    let t = UserDatatype::try_heterogeneous_indexed(&vec![1, 1], &vec![0, 6], &d);
    assert!(t.is_some());
    assert_eq!(offsets_of(&t.unwrap()), vec![0, 6]);
}

#[test]
fn user_datatype_is_released_by_move() {
    let d = u8::equivalent_datatype();
    let t = UserDatatype::contiguous(4, &d);
    t.free();
}

#[test]
fn zero_count_combinators_are_empty() {
    let d = i64::equivalent_datatype();
    let t = UserDatatype::contiguous(0, &d);
    assert_eq!(t.element_count(), 0);
    assert_eq!(t.extent(), 0);
    let v = UserDatatype::vector(0, 3, 7, &d);
    assert_eq!(v.element_count(), 0);
}

#[test]
fn system_datatype_is_copyable() {
    let d: SystemDatatype = u32::equivalent_datatype();
    let e = d;
    assert_eq!(d.kind, e.kind);
}
