use ndfft::array::NdArray;

fn iota(n: usize) -> Vec<i64> {
    let mut v = Vec::new();
    for k in 0..n {
        v.push(k as i64);
    }
    v
}

#[test]
fn from_shape_vec_accepts_matching_length() {
    let a = NdArray::from_shape_vec(vec![2, 3], iota(6)).unwrap();
    assert_eq!(a.shape(), &vec![2, 3]);
    assert_eq!(a.ndim(), 2);
    assert_eq!(a.len(), 6);
    assert_eq!(a.to_vec(), iota(6));
}

#[test]
fn from_shape_vec_rejects_wrong_length() {
    assert!(NdArray::from_shape_vec(vec![2, 3], iota(5)).is_none());
    assert!(NdArray::from_shape_vec(vec![2, 3], iota(7)).is_none());
    assert!(NdArray::from_shape_vec(vec![0, 3], iota(1)).is_none());
    assert!(NdArray::from_shape_vec(vec![], iota(0)).is_none());
}

#[test]
fn from_shape_vec_rejects_overflowing_shape() {
    let huge = usize::MAX / 2 + 1;
    assert!(NdArray::from_shape_vec(vec![huge, 2, 2], iota(4)).is_none());
}

#[test]
fn array_without_axes_holds_one_element() {
    let a = NdArray::from_shape_vec(vec![], vec![7i64]).unwrap();
    assert_eq!(a.ndim(), 0);
    assert_eq!(a.len(), 1);
    assert_eq!(a.get(&[]), Some(7));
    assert_eq!(a.get(&[0]), None);
    assert_eq!(a.to_vec(), vec![7]);
}

#[test]
fn array_without_elements() {
    let huge = usize::MAX / 2 + 1;
    let a = NdArray::from_shape_vec(vec![0, huge, huge], Vec::<i64>::new()).unwrap();
    assert_eq!(a.len(), 0);
    assert_eq!(a.lane_count(), 0);
    assert_eq!(a.get(&[0, 0, 0]), None);
    assert_eq!(a.to_vec(), Vec::<i64>::new());
    let b = NdArray::from_shape_vec(vec![3, 0], Vec::<i64>::new()).unwrap();
    assert_eq!(b.lane_count(), 0);
}

#[test]
fn get_reads_row_major_positions() {
    let a = NdArray::from_shape_vec(vec![2, 3, 4], iota(24)).unwrap();
    for i in 0..2 {
        for j in 0..3 {
            for k in 0..4 {
                assert_eq!(a.get(&[i, j, k]), Some((i * 12 + j * 4 + k) as i64));
            }
        }
    }
}

#[test]
fn get_rejects_indices_out_of_bounds() {
    let a = NdArray::from_shape_vec(vec![2, 3], iota(6)).unwrap();
    assert_eq!(a.get(&[2, 0]), None);
    assert_eq!(a.get(&[0, 3]), None);
    assert_eq!(a.get(&[0]), None);
    assert_eq!(a.get(&[0, 0, 0]), None);
    assert_eq!(a.get(&[1, 2]), Some(5));
}

#[test]
fn swap_axes_relabels_without_moving() {
    let mut a = NdArray::from_shape_vec(vec![2, 3], iota(6)).unwrap();
    a.swap_axes(0, 1);
    assert_eq!(a.shape(), &vec![3, 2]);
    for i in 0..3 {
        for j in 0..2 {
            assert_eq!(a.get(&[i, j]), Some((j * 3 + i) as i64));
        }
    }
    assert_eq!(a.to_vec(), vec![0, 3, 1, 4, 2, 5]);
    a.swap_axes(0, 1);
    assert_eq!(a.shape(), &vec![2, 3]);
    assert_eq!(a.to_vec(), iota(6));
}

#[test]
fn swap_axes_with_itself_changes_nothing() {
    let mut a = NdArray::from_shape_vec(vec![2, 3], iota(6)).unwrap();
    a.swap_axes(1, 1);
    assert_eq!(a.shape(), &vec![2, 3]);
    assert_eq!(a.to_vec(), iota(6));
}

#[test]
fn swap_axes_in_three_dimensions() {
    let mut a = NdArray::from_shape_vec(vec![2, 3, 4], iota(24)).unwrap();
    a.swap_axes(0, 2);
    assert_eq!(a.shape(), &vec![4, 3, 2]);
    for i in 0..4 {
        for j in 0..3 {
            for k in 0..2 {
                assert_eq!(a.get(&[i, j, k]), Some((k * 12 + j * 4 + i) as i64));
            }
        }
    }
}

#[test]
fn same_shape_compares_extents() {
    let a = NdArray::from_shape_vec(vec![2, 3], iota(6)).unwrap();
    let b = NdArray::from_shape_vec(vec![2, 3], vec![9i64; 6]).unwrap();
    let c = NdArray::from_shape_vec(vec![3, 2], iota(6)).unwrap();
    let d = NdArray::from_shape_vec(vec![6], iota(6)).unwrap();
    assert!(a.same_shape(&b));
    assert!(!a.same_shape(&c));
    assert!(!a.same_shape(&d));
}

#[test]
fn lanes_along_the_first_axis() {
    let a = NdArray::from_shape_vec(vec![2, 3], iota(6)).unwrap();
    assert_eq!(a.lane_count(), 3);
    assert_eq!(a.read_lane(0), vec![0, 3]);
    assert_eq!(a.read_lane(1), vec![1, 4]);
    assert_eq!(a.read_lane(2), vec![2, 5]);
}

#[test]
fn lanes_follow_row_major_order_of_the_other_axes() {
    let a = NdArray::from_shape_vec(vec![2, 2, 3], iota(12)).unwrap();
    assert_eq!(a.lane_count(), 6);
    for r in 0..6 {
        assert_eq!(a.read_lane(r), vec![r as i64, r as i64 + 6]);
    }
}

#[test]
fn lanes_of_a_relabelled_array() {
    let mut a = NdArray::from_shape_vec(vec![2, 3], iota(6)).unwrap();
    a.swap_axes(0, 1);
    assert_eq!(a.lane_count(), 2);
    assert_eq!(a.read_lane(0), vec![0, 1, 2]);
    assert_eq!(a.read_lane(1), vec![3, 4, 5]);
}

#[test]
fn write_lane_replaces_one_lane_only() {
    let mut a = NdArray::from_shape_vec(vec![2, 3], iota(6)).unwrap();
    a.write_lane(1, &vec![70, 80]);
    assert_eq!(a.to_vec(), vec![0, 70, 2, 3, 80, 5]);
    assert_eq!(a.read_lane(1), vec![70, 80]);
}

#[test]
fn assign_copies_by_multi_index() {
    let mut a = NdArray::from_shape_vec(vec![3, 2], vec![0i64; 6]).unwrap();
    let mut b = NdArray::from_shape_vec(vec![2, 3], iota(6)).unwrap();
    b.swap_axes(0, 1);
    a.assign(&b);
    assert_eq!(a.shape(), &vec![3, 2]);
    assert_eq!(a.to_vec(), vec![0, 3, 1, 4, 2, 5]);
    assert_eq!(b.to_vec(), vec![0, 3, 1, 4, 2, 5]);
    for i in 0..3 {
        for j in 0..2 {
            assert_eq!(a.get(&[i, j]), b.get(&[i, j]));
        }
    }
}

#[test]
fn to_vec_after_from_shape_vec_is_identity() {
    let data = vec![5i64, -1, 4, 8, 0, 2, 2, 9];
    let a = NdArray::from_shape_vec(vec![2, 2, 2], data.clone()).unwrap();
    assert_eq!(a.to_vec(), data);
}
