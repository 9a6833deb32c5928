use mpi::buffer::{AsDatatype, Collection, MutView, View, count_from_len};
use mpi::datatype::{Datatype, Equivalence, ScalarKind, UserDatatype};

#[test]
fn one_value_counts_as_one_element() {
    let x: i32 = 7;
    assert_eq!(Collection::count(&x), 1);
    let y: u64 = 9;
    assert_eq!(Collection::count(&y), 1);
}

#[test]
fn a_slice_counts_its_length() {
    let v: Vec<i32> = vec![1, 2, 3, 4, 5];
    assert_eq!(Collection::count(&v[..]), 5);
    let empty: Vec<u8> = Vec::new();
    assert_eq!(Collection::count(&empty[..]), 0);
}

#[test]
fn count_derivation_fails_past_the_count_width() {
    assert_eq!(count_from_len(0), Some(0));
    assert_eq!(count_from_len(123), Some(123));
    assert_eq!(count_from_len(i32::MAX as usize), Some(i32::MAX));
    assert_eq!(count_from_len(i32::MAX as usize + 1), None);
    assert_eq!(count_from_len(usize::MAX), None);
}

#[test]
fn values_and_slices_expose_their_datatype() {
    let x: i16 = 3;
    assert_eq!(x.as_datatype().kind, ScalarKind::Int16);
    let v: Vec<u32> = vec![1, 2];
    assert_eq!((v[..]).as_datatype().kind, ScalarKind::UInt32);
}

#[test]
fn view_checks_that_instances_fit() {
    let d = i32::equivalent_datatype();
    let t = UserDatatype::vector(3, 2, 4, &d); // spans 40 bytes
    let region: Vec<i32> = vec![0; 10]; // 40 bytes
    let v = View::try_with_count_and_datatype(&region[..], 1, &t);
    assert!(v.is_some());
    assert_eq!(Collection::count(&v.unwrap()), 1);
    assert!(View::try_with_count_and_datatype(&region[..], 2, &t).is_none());
    assert!(View::try_with_count_and_datatype(&region[..], -1, &t).is_none());
    let short: Vec<i32> = vec![0; 9]; // 36 bytes
    assert!(View::try_with_count_and_datatype(&short[..], 1, &t).is_none());
}

#[test]
fn view_of_consecutive_instances() {
    let d = u8::equivalent_datatype();
    let t = UserDatatype::contiguous(4, &d); // extent 4 bytes
    let region: Vec<u8> = vec![0; 12];
    let v = View::try_with_count_and_datatype(&region[..], 3, &t);
    assert!(v.is_some());
    assert!(View::try_with_count_and_datatype(&region[..], 4, &t).is_none());
}

#[test]
fn view_rejects_layouts_before_the_region() {
    let d = i32::equivalent_datatype();
    let t = UserDatatype::indexed(&vec![1], &vec![-1], &d); // starts 4 bytes below
    let region: Vec<i32> = vec![0; 4];
    assert!(View::try_with_count_and_datatype(&region[..], 1, &t).is_none());
}

#[test]
fn view_hands_back_its_datatype() {
    let d = i32::equivalent_datatype();
    let region: Vec<i32> = vec![0; 2];
    let v = View::try_with_count_and_datatype(&region[..], 2, &d).unwrap();
    assert_eq!(v.as_datatype().base(), ScalarKind::Int32);
}

#[test]
fn mut_view_checks_that_instances_fit() {
    let d = i32::equivalent_datatype();
    let t = UserDatatype::vector(3, 2, 4, &d);
    let mut region: Vec<i32> = vec![0; 10];
    {
        let v = MutView::try_with_count_and_datatype(&mut region[..], 1, &t);
        assert!(v.is_some());
        assert_eq!(Collection::count(&v.unwrap()), 1);
    }
    assert!(MutView::try_with_count_and_datatype(&mut region[..], 2, &t).is_none());
}

#[test]
fn zero_count_view_always_fits() {
    let d = i64::equivalent_datatype();
    let region: Vec<i64> = Vec::new();
    let v = View::try_with_count_and_datatype(&region[..], 0, &d);
    assert!(v.is_some());
    assert_eq!(Collection::count(&v.unwrap()), 0);
}
