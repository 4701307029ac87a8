use std::sync::Arc;

use axtensor::device::Device;
use axtensor::tensor::{Tensor, TensorId};
use axtensor::kernels::{
    fill, gather_strided, num_elements_of, reduced_dims, rope_apply, strided_loop, strided_offset,
    sum_axis_gather, unravel_index, view_in_bounds,
};
use axtensor::shape::{DType, Shape, Strides};

#[test]
fn shape_counts_elements_and_rank() {
    let s = Shape::new(vec![2, 3, 4]);
    assert_eq!(s.rank(), 3);
    assert_eq!(s.num_elements(), 24);
    assert_eq!(s.dims(), &[2, 3, 4]);
    let scalar = Shape::new(Vec::new());
    assert_eq!(scalar.num_elements(), 1);
    assert_eq!(Shape::new(vec![5, 0, 7]).num_elements(), 0);
}

#[test]
fn contiguous_strides_are_row_major() {
    let s = Shape::new(vec![2, 3, 4]);
    assert_eq!(s.contiguous_strides().steps(), &[12, 4, 1]);
    assert_eq!(Shape::new(vec![7]).contiguous_strides().steps(), &[1]);
    assert_eq!(Shape::new(vec![3, 0, 2]).contiguous_strides().steps(), &[0, 2, 1]);
    let empty: &[isize] = &[];
    assert_eq!(Shape::new(Vec::new()).contiguous_strides().steps(), empty);
}

#[test]
fn dtype_widths() {
    assert_eq!(DType::F32.size_in_bytes(), 4);
    assert_eq!(DType::F64.size_in_bytes(), 8);
    assert_eq!(DType::BF16.size_in_bytes(), 2);
}

#[test]
fn unravel_is_row_major() {
    assert_eq!(unravel_index(0, &[2, 3, 4]), vec![0, 0, 0]);
    assert_eq!(unravel_index(5, &[2, 3, 4]), vec![0, 1, 1]);
    assert_eq!(unravel_index(23, &[2, 3, 4]), vec![1, 2, 3]);
    assert_eq!(unravel_index(0, &[]), Vec::<usize>::new());
}

#[test]
fn contiguous_offsets_are_the_identity() {
    let dims = [2, 3, 4];
    let s = Shape::new(dims.to_vec()).contiguous_strides();
    for k in 0..24 {
        let c = unravel_index(k, &dims);
        assert_eq!(strided_offset(&c, s.steps(), 0), k);
    }
}

#[test]
fn strided_offset_adds_base() {
    assert_eq!(strided_offset(&[1, 2], &[10, 3], 5), 5 + 10 + 6);
    assert_eq!(strided_offset(&[], &[], 9), 9);
}

#[test]
fn bounds_check_of_views() {
    // A 2x3 row-major view over 6 elements fits; over 5 it does not.
    assert!(view_in_bounds(&[2, 3], &[3, 1], 0, 6));
    assert!(!view_in_bounds(&[2, 3], &[3, 1], 0, 5));
    assert!(!view_in_bounds(&[2, 3], &[3, 1], 1, 6));
    // Negative strides and rank mismatch are refused.
    assert!(!view_in_bounds(&[2, 3], &[-3, 1], 6, 12));
    assert!(!view_in_bounds(&[2, 3], &[3], 0, 6));
    // A view with no element fits anywhere.
    assert!(view_in_bounds(&[2, 0], &[1000, 1000], 1000, 0));
    // An extent that overflows is refused.
    assert!(!view_in_bounds(&[4], &[isize::MAX], 0, usize::MAX));
}

#[test]
fn strided_loop_walks_transposed_view() {
    // The transpose of a contiguous 2x3 matrix: shape 3x2, strides [1, 3].
    assert_eq!(strided_loop(&[3, 2], &[1, 3], 0), vec![0, 3, 1, 4, 2, 5]);
    assert_eq!(strided_loop(&[2, 2], &[2, 1], 10), vec![10, 11, 12, 13]);
    assert_eq!(strided_loop(&[], &[], 4), vec![4]);
    assert_eq!(strided_loop(&[0, 3], &[3, 1], 0), Vec::<usize>::new());
}

#[test]
fn fill_writes_only_the_view() {
    let mut data = vec![0i32; 8];
    // Column 1 of a 2x4 row-major matrix: shape [2], stride [4], base 1.
    fill(&mut data, &[2], &[4], 1, 7);
    assert_eq!(data, vec![0, 7, 0, 0, 0, 7, 0, 0]);
    let mut all = vec![1.5f32; 4];
    fill(&mut all, &[2, 2], &[2, 1], 0, 1.0f32);
    assert_eq!(all, vec![1.0f32; 4]);
}

#[test]
fn gather_reads_in_row_major_order() {
    let data = [1, 2, 3, 4, 5, 6];
    assert_eq!(gather_strided(&data, &[3, 2], &[1, 3], 0), vec![1, 4, 2, 5, 3, 6]);
    let total: i32 = gather_strided(&data, &[2, 3], &[3, 1], 0).iter().sum();
    assert_eq!(total, 21);
    assert_eq!(gather_strided(&data, &[], &[], 4), vec![5]);
}

#[test]
fn reduced_dims_drop_the_axis() {
    assert_eq!(reduced_dims(&[2, 3, 4], 1), vec![2, 4]);
    assert_eq!(reduced_dims(&[5], 0), Vec::<usize>::new());
}

#[test]
fn sum_axis_groups_the_reduced_elements() {
    // [[1, 2, 3], [4, 5, 6]]
    let data = [1, 2, 3, 4, 5, 6];
    let rows = sum_axis_gather(&data, &[2, 3], &[3, 1], 0, 0);
    assert_eq!(rows, vec![vec![1, 4], vec![2, 5], vec![3, 6]]);
    let sums: Vec<i32> = rows.iter().map(|r| r.iter().sum()).collect();
    assert_eq!(sums, vec![5, 7, 9]);
    let cols = sum_axis_gather(&data, &[2, 3], &[3, 1], 0, 1);
    let sums: Vec<i32> = cols.iter().map(|r| r.iter().sum()).collect();
    assert_eq!(sums, vec![6, 15]);
    // Reducing a rank-1 tensor leaves one scalar holding every element.
    assert_eq!(sum_axis_gather(&data, &[6], &[1], 0, 0), vec![vec![1, 2, 3, 4, 5, 6]]);
    // An empty reduced axis gives empty groups.
    assert_eq!(sum_axis_gather(&data, &[2, 0], &[0, 1], 0, 1), vec![Vec::<i32>::new(), Vec::new()]);
}

#[test]
fn num_elements_of_dims() {
    assert_eq!(num_elements_of(&[4, 5]), 20);
    assert_eq!(num_elements_of(&[]), 1);
}

#[test]
fn rope_rotates_each_pair_by_its_position() {
    // Two sequences of two tokens with head_dim 4; the rotation records its
    // inputs so that the test can see which position and pair it was given.
    let x: Vec<i64> = (0..16).collect();
    let out = rope_apply(&x, &[2, 2, 4], 4, &|pos: usize, pair: usize, a: i64, b: i64| {
        (a * 100 + pos as i64 * 10 + pair as i64, b)
    });
    assert_eq!(out.len(), 16);
    // Token 0 (position 0): pairs (0,1), (2,3).
    assert_eq!(&out[0..4], &[0, 1, 200 + 1, 3]);
    // Token 1 (position 1): pairs (4,5), (6,7).
    assert_eq!(&out[4..8], &[400 + 10, 5, 600 + 10 + 1, 7]);
    // Token 2 starts the second sequence: position 0 again.
    assert_eq!(&out[8..12], &[800, 9, 1000 + 1, 11]);
}

#[test]
fn rope_with_a_quarter_turn() {
    // A quarter turn maps (a, b) to (-b, a).
    let out = rope_apply(&[1i32, 2, 3, 4], &[1, 4], 4, &|_p: usize, _i: usize, a: i32, b: i32| (-b, a));
    assert_eq!(out, vec![-2, 1, -4, 3]);
}

#[test]
fn strides_round_trip() {
    let s = Strides::new(vec![3, 1]);
    assert_eq!(s.clone().steps(), &[3, 1]);
}

#[test]
fn checked_element_counts() {
    assert_eq!(Shape::new(vec![2, 3, 4]).checked_num_elements(), Some(24));
    assert_eq!(Shape::new(Vec::new()).checked_num_elements(), Some(1));
    assert_eq!(Shape::new(vec![usize::MAX, 2]).checked_num_elements(), None);
    // A zero after an overflowing prefix does not rescue it.
    assert_eq!(Shape::new(vec![usize::MAX, 2, 0]).checked_num_elements(), None);
    assert_eq!(Shape::new(vec![0, usize::MAX, 2]).checked_num_elements(), Some(0));
}

#[test]
fn contiguous_strides_fit_check() {
    assert!(Shape::new(vec![2, 3, 4]).strides_fit());
    assert!(Shape::new(Vec::new()).strides_fit());
    // The outermost dimension never enters a stride.
    assert!(Shape::new(vec![usize::MAX, 4]).strides_fit());
    assert!(!Shape::new(vec![2, usize::MAX / 2, 4]).strides_fit());
    assert!(!Shape::new(vec![1, 0, usize::MAX, 2]).strides_fit());
}

#[test]
fn contiguity_check() {
    let t: Tensor<(), ()> =
        Tensor::from_storage(TensorId(1), DType::F32, Shape::new(vec![2, 3]), Arc::new(()), Device::Cpu);
    assert!(t.check_contiguous());
    assert!(!t.t().check_contiguous());
    let mut u = t.clone();
    u.strides = Strides::new(vec![3]);
    assert!(!u.check_contiguous());
    let s: Tensor<(), ()> =
        Tensor::from_storage(TensorId(2), DType::F32, Shape::new(Vec::new()), Arc::new(()), Device::Cpu);
    assert!(s.check_contiguous());
}
