use axtensor::kernels::{
    fold_left, place_slice, sum_along, relu_backward_typed, relu_typed, sgd_update, sum_axis_typed, sum_typed,
};

#[test]
fn fold_left_runs_left_to_right() {
    // Subtraction is not associative: the order shows.
    assert_eq!(fold_left(&[1, 2, 3], 10, &|a: i32, b: i32| a - b), 4);
    assert_eq!(fold_left(&[], 7, &|a: i32, b: i32| a + b), 7);
}

#[test]
fn sum_of_a_transposed_view() {
    let data = [1.0f32, 2.0, 3.0, 4.0, 5.0, 6.0];
    let total = sum_typed(&data, &[3, 2], &[1, 3], 0, 0.0f32, &|a: f32, b: f32| a + b);
    assert_eq!(total, 21.0);
    // The order of accumulation is row-major in the view: 1, 4, 2, 5, 3, 6.
    let trace = sum_typed(&[1i64, 2, 3, 4, 5, 6], &[3, 2], &[1, 3], 0, 0, &|a: i64, b: i64| a * 10 + b);
    assert_eq!(trace, 142536);
}

#[test]
fn sum_of_a_scalar_and_of_nothing() {
    assert_eq!(sum_typed(&[5i32, 6], &[], &[], 1, 0, &|a: i32, b: i32| a + b), 6);
    assert_eq!(sum_typed(&[5i32, 6], &[0, 2], &[2, 1], 0, 0, &|a: i32, b: i32| a + b), 0);
}

#[test]
fn sums_along_each_axis() {
    // [[1, 2, 3], [4, 5, 6]]
    let data = [1i32, 2, 3, 4, 5, 6];
    let add = |a: i32, b: i32| a + b;
    assert_eq!(sum_axis_typed(&data, &[2, 3], &[3, 1], 0, 0, 0, &add), vec![5, 7, 9]);
    assert_eq!(sum_axis_typed(&data, &[2, 3], &[3, 1], 0, 1, 0, &add), vec![6, 15]);
    // A 2x2x2 cube summed along its middle axis.
    let cube: Vec<i32> = (0..8).collect();
    assert_eq!(sum_axis_typed(&cube, &[2, 2, 2], &[4, 2, 1], 0, 1, 0, &add), vec![2, 4, 10, 12]);
}

#[test]
fn relu_keeps_positive_values() {
    let x = [-1.5f32, 0.0, 2.0, -0.0, 3.5];
    let out = relu_typed(&x, 0.0f32, &|v: f32| v > 0.0);
    assert_eq!(out, vec![0.0, 0.0, 2.0, 0.0, 3.5]);
}

#[test]
fn relu_gradient_passes_where_input_was_positive() {
    let x = [-1i32, 2, 0, 5];
    let g = [10i32, 20, 30, 40];
    assert_eq!(relu_backward_typed(&g, &x, 0, &|v: i32| v > 0), vec![0, 20, 0, 40]);
}

#[test]
fn sgd_moves_against_the_gradient() {
    let mut w = vec![1.0f32, 2.0, 3.0];
    let g = [0.5f32, -1.0, 0.0];
    let lr = 0.1f32;
    sgd_update(&mut w, &g, &|w: f32, g: f32| w - lr * g);
    assert_eq!(w, vec![1.0 - 0.05, 2.0 + 0.1, 3.0]);
    let mut empty: Vec<i32> = Vec::new();
    sgd_update(&mut empty, &[], &|w: i32, g: i32| w - g);
    assert!(empty.is_empty());
}

#[test]
fn slice_gradient_lands_in_its_place() {
    assert_eq!(place_slice(&[1, 2], 3, 1, 0), vec![0, 0, 1, 2, 0, 0]);
    assert_eq!(place_slice(&[5], 2, 0, -1), vec![5, -1]);
    assert_eq!(place_slice::<i32>(&[], 4, 2, 0), Vec::<i32>::new());
}

#[test]
fn sum_along_drops_the_axis() {
    let data = [1, 2, 3, 4, 5, 6];
    let (dims, out) = sum_along(&data, &[2, 3], &[3, 1], 0, 0, 0, &|a: i32, b: i32| a + b);
    assert_eq!(dims, vec![3]);
    assert_eq!(out, vec![5, 7, 9]);
    // Rank 1: the full sum.
    let (dims, out) = sum_along(&data, &[6], &[1], 0, 0, 0, &|a: i32, b: i32| a + b);
    assert_eq!(dims, Vec::<usize>::new());
    assert_eq!(out, vec![21]);
}
